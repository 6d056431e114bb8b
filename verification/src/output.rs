//! Typed records read out of the generic graph and generated back into it.
//!
//! The graph stores game records as dictionaries following fixed key
//! conventions; these types give a few of those conventions a concrete,
//! contract-checked shape: a floor record's in/out labels, and a timeline's
//! all-string mapping.

use crate::flowdata::{
    dic_has_key, dic_value_of, idnames_after, Dictionary, FlowData, FlowDataError, FlowDataV,
    FlowDataValue, FlowDataValueV,
};
use vstd::prelude::*;

verus! {

/// The in/out labels a floor record resolves to, when the dictionary at
/// `dicid` follows the floor convention: key "in" holds a string, key "out"
/// holds a string or a reference to a vector whose first element is one.
pub open spec fn spec_floor(g: FlowDataV, dicid: int) -> Option<(Seq<char>, Seq<char>)> {
    if 0 <= dicid < g.dictionaries.len() {
        let d = g.dictionaries[dicid];
        if dic_has_key(d, "in"@) && dic_has_key(d, "out"@) && dic_value_of(d, "in"@) is Str {
            let label_in = dic_value_of(d, "in"@)->Str_0;
            match dic_value_of(d, "out"@) {
                FlowDataValueV::Str(o) => Some((label_in, o)),
                FlowDataValueV::RefVec(v) => if v < g.vectors.len() && g.vectors[v as int].len() > 0
                    && g.vectors[v as int][0] is Str {
                    Some((label_in, g.vectors[v as int][0]->Str_0))
                } else {
                    None
                },
                _ => None,
            }
        } else {
            None
        }
    } else {
        None
    }
}

/// A floor record: its "in" label and its "out" label, the latter possibly
/// fetched through a vector reference.
#[derive(Debug)]
pub struct Floor {
    i: String,
    o: String,
}

impl View for Floor {
    type V = (Seq<char>, Seq<char>);

    closed spec fn view(&self) -> (Seq<char>, Seq<char>) {
        (self.i@, self.o@)
    }
}

impl Floor {
    /// Read the floor record held by the dictionary at `dicid`, if that
    /// dictionary follows the floor convention.
    pub fn new(source: &FlowData, dicid: usize) -> (r: Option<Floor>)
        requires
            source.wf(),
        ensures
            match r {
                Some(f) => spec_floor(source@, dicid as int) == Some(f@),
                None => spec_floor(source@, dicid as int) is None,
            },
    {
        let dic = match source.get_dictionary(dicid) {
            Some(d) => d,
            None => {
                return None;
            },
        };
        let i = match dic.get("in") {
            Some(FlowDataValue::Str(s)) => s.clone(),
            Some(_) => {
                return None;
            },
            None => {
                return None;
            },
        };
        match dic.get("out") {
            Some(FlowDataValue::Str(s)) => Some(Floor { i, o: s.clone() }),
            Some(FlowDataValue::RefVec(vecid)) => {
                let v = *vecid;
                match source.get_vector(v as usize) {
                    Some(vec) => {
                        if vec.len() == 0 {
                            return None;
                        }
                        match &vec[0] {
                            FlowDataValue::Str(s) => Some(Floor { i, o: s.clone() }),
                            _ => None,
                        }
                    },
                    None => None,
                }
            },
            Some(_) => None,
            None => None,
        }
    }
}

impl Floor {
    /// The label the record enters through.
    pub fn label_in(&self) -> (r: &String)
        ensures
            r@ == self@.0,
    {
        &self.i
    }

    /// The label the record leaves through.
    pub fn label_out(&self) -> (r: &String)
        ensures
            r@ == self@.1,
    {
        &self.o
    }
}

/// The pair list a timeline stands for, when every value of the dictionary
/// at `dicid` is a string: each key mapped to its string content, in entry
/// order.
pub open spec fn spec_timeline(g: FlowDataV, dicid: int) -> Option<Seq<(Seq<char>, Seq<char>)>> {
    if 0 <= dicid < g.dictionaries.len() {
        let d = g.dictionaries[dicid];
        if forall|j: int| 0 <= j < d.len() ==> (#[trigger] d[j]).1 is Str {
            Some(Seq::new(d.len(), |j: int| (d[j].0, d[j].1->Str_0)))
        } else {
            None
        }
    } else {
        None
    }
}

/// The dictionary a timeline generates: every pair back as a string value,
/// in order.
pub open spec fn timeline_dict(t: Seq<(Seq<char>, Seq<char>)>) -> Seq<(Seq<char>, FlowDataValueV)> {
    Seq::new(t.len(), |j: int| (t[j].0, FlowDataValueV::Str(t[j].1)))
}

/// A timeline record: a mapping whose keys and values are all strings.
#[derive(Debug)]
pub struct Timeline {
    dic: Vec<(String, String)>,
}

impl View for Timeline {
    type V = Seq<(Seq<char>, Seq<char>)>;

    closed spec fn view(&self) -> Seq<(Seq<char>, Seq<char>)> {
        Seq::new(self.dic@.len(), |j: int| (self.dic@[j].0@, self.dic@[j].1@))
    }
}

impl Timeline {
    /// Keys are unique, as in the dictionary the timeline was read from.
    pub open spec fn wf(self) -> bool {
        forall|a: int, b: int| 0 <= a < b < self@.len() ==> (#[trigger] self@[a]).0 != (
        #[trigger] self@[b]).0
    }

    /// Read the timeline held by the dictionary at `dicid`, if every value
    /// there is a string.
    pub fn new(source: &FlowData, dicid: usize) -> (r: Option<Timeline>)
        requires
            source.wf(),
        ensures
            match r {
                Some(t) => spec_timeline(source@, dicid as int) == Some(t@) && t.wf(),
                None => spec_timeline(source@, dicid as int) is None,
            },
    {
        let dic = match source.get_dictionary(dicid) {
            Some(d) => d,
            None => {
                return None;
            },
        };
        let ghost dv = source@.dictionaries[dicid as int];
        let mut pairs: Vec<(String, String)> = Vec::new();
        let mut j: usize = 0;
        while j < dic.len()
            invariant
                source.wf(),
                dicid < source@.dictionaries.len(),
                dv == source@.dictionaries[dicid as int],
                dic@ == dv,
                dic.wf(),
                j <= dv.len(),
                pairs@.len() == j,
                forall|a: int|
                    0 <= a < j ==> (#[trigger] dv[a]).1 is Str && (pairs@[a].0@, pairs@[a].1@) == (
                    dv[a].0, dv[a].1->Str_0),
            decreases dv.len() - j,
        {
            let entry = dic.entry_at(j).unwrap();
            match &entry.1 {
                FlowDataValue::Str(s) => {
                    pairs.push((entry.0.clone(), s.clone()));
                },
                _ => {
                    proof {
                        if forall|a: int| 0 <= a < dv.len() ==> (#[trigger] dv[a]).1 is Str {
                            assert(dv[j as int].1 is Str);
                        }
                    }
                    return None;
                },
            }
            j = j + 1;
        }
        let t = Timeline { dic: pairs };
        proof {
            assert(t@ =~= Seq::new(dv.len(), |a: int| (dv[a].0, dv[a].1->Str_0)));
            assert(spec_timeline(source@, dicid as int) == Some(t@));
        }
        Some(t)
    }

    /// The timeline's pairs, in entry order.
    pub fn pairs(&self) -> (r: &Vec<(String, String)>)
        ensures
            r@.len() == self@.len(),
            forall|j: int| 0 <= j < self@.len() ==> ((#[trigger] r@[j]).0@, r@[j].1@) == self@[j],
    {
        &self.dic
    }

    /// Append this timeline to the graph as a fresh dictionary, every value
    /// written back as a string. Fails exactly when the graph already holds
    /// 65536 dictionaries.
    pub fn generate(&self, dest: &mut FlowData) -> (r: Result<u16, FlowDataError>)
        requires
            old(dest).wf(),
            self.wf(),
        ensures
            final(dest).wf(),
            match r {
                Ok(id) => {
                    &&& id == old(dest)@.dictionaries.len()
                    &&& final(dest)@.dictionaries == old(dest)@.dictionaries.push(
                        timeline_dict(self@),
                    )
                    &&& final(dest)@.vectors == old(dest)@.vectors
                    &&& final(dest)@.unknown1 == old(dest)@.unknown1
                    &&& final(dest)@.unknown2 == old(dest)@.unknown2
                    &&& final(dest)@.idnames == idnames_after(
                        old(dest)@.idnames,
                        timeline_dict(self@),
                        id,
                    )
                },
                Err(e) => {
                    &&& *final(dest) == *old(dest)
                    &&& e is TryFromIntError
                    &&& old(dest)@.dictionaries.len() > u16::MAX
                },
            },
    {
        let mut dic = Dictionary::new();
        let mut j: usize = 0;
        while j < self.dic.len()
            invariant
                self.wf(),
                j <= self@.len(),
                self@.len() == self.dic@.len(),
                dic.wf(),
                dic@ == timeline_dict(self@).take(j as int),
            decreases self.dic@.len() - j,
        {
            proof {
                assert(forall|a: int|
                    0 <= a < j ==> (#[trigger] dic@[a]).0 == self@[a].0);
                assert(!dic_has_key(dic@, self@[j as int].0));
            }
            dic.insert(self.dic[j].0.clone(), FlowDataValue::Str(self.dic[j].1.clone()));
            proof {
                assert(dic@ =~= timeline_dict(self@).take(j + 1));
            }
            j = j + 1;
        }
        proof {
            assert(timeline_dict(self@).take(self@.len() as int) =~= timeline_dict(self@));
            assert(!crate::flowdata::idname_bad(dic@) || !(dic_value_of(dic@, "idname"@) is Str))
                by {
                if dic_has_key(dic@, "idname"@) {
                    let w = crate::flowdata::dic_key_index(dic@, "idname"@);
                    assert(dic@[w].1 is Str);
                }
            }
        }
        dest.push_dictionary(dic)
    }
}

} // verus!