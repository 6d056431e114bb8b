//! The in-memory graph model: dictionaries, vectors, typed entry values,
//! derived caches, and the binary decoder/encoder.

use crate::tool::{u16_le_at, u32_le_at};
use vstd::string::StringSliceAdditionalSpecFns;
use vstd::prelude::*;

verus! {

/// Declares the error type of `pmd_sir0::write_sir0_footer` so that it can be
/// carried inside [`FlowDataError`].
#[verifier::external_type_specification]
#[verifier::external_body]
pub struct ExSir0WriteFooterError(pmd_sir0::Sir0WriteFooterError);

/// A value held by a dictionary entry or a vector element: a string, or a
/// reference (by position) to another dictionary or vector of the same graph.
#[derive(Debug)]
pub enum FlowDataValue {
    /// a string
    Str(String),
    /// a reference to a dictionary
    RefDic(u16),
    /// a reference to a vector
    RefVec(u16),
}

/// The mathematical shape of a [`FlowDataValue`]: the string is a character
/// sequence, the references are bare indices.
pub enum FlowDataValueV {
    Str(Seq<char>),
    RefDic(u16),
    RefVec(u16),
}

impl View for FlowDataValue {
    type V = FlowDataValueV;

    open spec fn view(&self) -> FlowDataValueV {
        match self {
            FlowDataValue::Str(s) => FlowDataValueV::Str(s@),
            FlowDataValue::RefDic(d) => FlowDataValueV::RefDic(*d),
            FlowDataValue::RefVec(v) => FlowDataValueV::RefVec(*v),
        }
    }
}

impl Clone for FlowDataValue {
    fn clone(&self) -> (r: Self)
        ensures
            r@ == self@,
    {
        match self {
            FlowDataValue::Str(s) => FlowDataValue::Str(s.clone()),
            FlowDataValue::RefDic(d) => FlowDataValue::RefDic(*d),
            FlowDataValue::RefVec(v) => FlowDataValue::RefVec(*v),
        }
    }
}

impl PartialEq for FlowDataValue {
    fn eq(&self, other: &Self) -> (r: bool) {
        match (self, other) {
            (FlowDataValue::Str(a), FlowDataValue::Str(b)) => *a == *b,
            (FlowDataValue::RefDic(a), FlowDataValue::RefDic(b)) => a == b,
            (FlowDataValue::RefVec(a), FlowDataValue::RefVec(b)) => a == b,
            _ => false,
        }
    }
}

impl Eq for FlowDataValue {}

impl vstd::std_specs::cmp::PartialEqSpecImpl for FlowDataValue {
    open spec fn obeys_eq_spec() -> bool {
        true
    }

    open spec fn eq_spec(&self, other: &Self) -> bool {
        self@ == other@
    }
}

impl FlowDataValue {
    /// return the value of the string if it exist
    pub fn get_string(&self) -> (r: Option<String>)
        ensures
            match r {
                Some(s) => self@ matches FlowDataValueV::Str(c) && c == s@,
                None => !(self@ is Str),
            },
    {
        match self {
            FlowDataValue::Str(s) => Some(s.clone()),
            _ => None,
        }
    }

    /// return the id of the vector this point to, if it exist
    pub fn get_vecid(&self) -> (r: Option<usize>)
        ensures
            match r {
                Some(id) => self@ == FlowDataValueV::RefVec(id as u16) && id <= u16::MAX,
                None => !(self@ is RefVec),
            },
    {
        match self {
            FlowDataValue::RefVec(vecid) => Some(*vecid as usize),
            _ => None,
        }
    }

    /// return the id of the dictionary this point to, if it exist
    pub fn get_dicid(&self) -> (r: Option<usize>)
        ensures
            match r {
                Some(id) => self@ == FlowDataValueV::RefDic(id as u16) && id <= u16::MAX,
                None => !(self@ is RefDic),
            },
    {
        match self {
            FlowDataValue::RefDic(dicid) => Some(*dicid as usize),
            _ => None,
        }
    }
}

/// List possible error that can happen while parsing/writing a binary flow
/// file (with [`FlowData`]).
///
/// The out-of-range variants carry the offending index first and the bound it
/// had to stay under second.
#[derive(Debug)]
pub enum FlowDataError {
    /// a read or write went past the end of the byte store
    IOError,
    /// a count no longer fits the 16-bit index width
    TryFromIntError,
    /// the reserved key "idname" maps to something that is not a string
    IDNameNotString(FlowDataValue),
    /// a string-pointer-table index is out of range
    StringReferenceTooBig(u16, u32),
    /// a keyval-table index is out of range
    KeyValTooBig(u16, u32),
    /// a value-table index is out of range
    ValTooBig(u16, u32),
    /// a dictionary reference is out of range
    DicReferenceTooBig(u16, u32),
    /// a vector reference is out of range
    VecReferenceTooBig(u16, u32),
    /// a dictionary value record carries an unknown type tag
    UnrecognizedTypeForDic(u16),
    /// a vector value record carries an unknown type tag
    UnrecognizedTypeForVec(u16),
    /// pointers that must not decrease did decrease: previous, then current
    NonMonotonicPointer(u32, u32),
    /// a string's bytes are not valid UTF-8
    InvalidUtf8,
    /// the relocation-footer writer refused its input
    Sir0WriteFooterError(pmd_sir0::Sir0WriteFooterError),
}

/// The mathematical shape of a [`FlowDataError`]: the footer error's opaque
/// payload is dropped, the string payload becomes a character sequence.
pub enum FlowDataErrorV {
    IOError,
    TryFromIntError,
    IDNameNotString(FlowDataValueV),
    StringReferenceTooBig(u16, u32),
    KeyValTooBig(u16, u32),
    ValTooBig(u16, u32),
    DicReferenceTooBig(u16, u32),
    VecReferenceTooBig(u16, u32),
    UnrecognizedTypeForDic(u16),
    UnrecognizedTypeForVec(u16),
    NonMonotonicPointer(u32, u32),
    InvalidUtf8,
    Sir0WriteFooterError,
}

impl View for FlowDataError {
    type V = FlowDataErrorV;

    open spec fn view(&self) -> FlowDataErrorV {
        match self {
            FlowDataError::IOError => FlowDataErrorV::IOError,
            FlowDataError::TryFromIntError => FlowDataErrorV::TryFromIntError,
            FlowDataError::IDNameNotString(v) => FlowDataErrorV::IDNameNotString(v@),
            FlowDataError::StringReferenceTooBig(p, l) => FlowDataErrorV::StringReferenceTooBig(
                *p,
                *l,
            ),
            FlowDataError::KeyValTooBig(p, l) => FlowDataErrorV::KeyValTooBig(*p, *l),
            FlowDataError::ValTooBig(p, l) => FlowDataErrorV::ValTooBig(*p, *l),
            FlowDataError::DicReferenceTooBig(p, l) => FlowDataErrorV::DicReferenceTooBig(*p, *l),
            FlowDataError::VecReferenceTooBig(p, l) => FlowDataErrorV::VecReferenceTooBig(*p, *l),
            FlowDataError::UnrecognizedTypeForDic(t) => FlowDataErrorV::UnrecognizedTypeForDic(*t),
            FlowDataError::UnrecognizedTypeForVec(t) => FlowDataErrorV::UnrecognizedTypeForVec(*t),
            FlowDataError::NonMonotonicPointer(p, c) => FlowDataErrorV::NonMonotonicPointer(*p, *c),
            FlowDataError::InvalidUtf8 => FlowDataErrorV::InvalidUtf8,
            FlowDataError::Sir0WriteFooterError(_) => FlowDataErrorV::Sir0WriteFooterError,
        }
    }
}

/// Whether the pair sequence `s` holds `k` as a key.
pub open spec fn dic_has_key(s: Seq<(Seq<char>, FlowDataValueV)>, k: Seq<char>) -> bool {
    exists|i: int| 0 <= i < s.len() && (#[trigger] s[i]).0 == k
}

/// A position of `s` holding `k` as its key.
pub open spec fn dic_key_index(s: Seq<(Seq<char>, FlowDataValueV)>, k: Seq<char>) -> int {
    choose|i: int| 0 <= i < s.len() && (#[trigger] s[i]).0 == k
}

/// The value the pair sequence `s` maps `k` to.
pub open spec fn dic_value_of(s: Seq<(Seq<char>, FlowDataValueV)>, k: Seq<char>) -> FlowDataValueV {
    s[dic_key_index(s, k)].1
}

/// Insert a pair as [`Dictionary::insert`] does: an existing key keeps its
/// position and takes the new value, a new key goes to the end.
pub open spec fn dic_insert(
    s: Seq<(Seq<char>, FlowDataValueV)>,
    k: Seq<char>,
    v: FlowDataValueV,
) -> Seq<(Seq<char>, FlowDataValueV)> {
    if dic_has_key(s, k) {
        s.update(dic_key_index(s, k), (k, v))
    } else {
        s.push((k, v))
    }
}

/// The dictionary built by inserting the pairs of `ps` in order, a later
/// pair with the same key winning.
pub open spec fn dic_from_pairs(ps: Seq<(Seq<char>, FlowDataValueV)>) -> Seq<
    (Seq<char>, FlowDataValueV),
>
    decreases ps.len(),
{
    if ps.len() == 0 {
        Seq::empty()
    } else {
        dic_insert(dic_from_pairs(ps.drop_last()), ps.last().0, ps.last().1)
    }
}

/// No key occurs twice.
pub open spec fn dic_keys_unique(s: Seq<(Seq<char>, FlowDataValueV)>) -> bool {
    forall|i: int, j: int|
        0 <= i < j < s.len() ==> (#[trigger] s[i]).0 != (#[trigger] s[j]).0
}

/// A dictionary of the graph: string keys mapped to values. Keys are unique
/// and entries keep their insertion order, which the codec preserves.
#[derive(Debug)]
pub struct Dictionary {
    entries: Vec<(String, FlowDataValue)>,
}

impl View for Dictionary {
    type V = Seq<(Seq<char>, FlowDataValueV)>;

    closed spec fn view(&self) -> Self::V {
        Seq::new(self.entries@.len(), |i: int| (self.entries@[i].0@, self.entries@[i].1@))
    }
}

impl DeepView for Dictionary {
    type V = Seq<(Seq<char>, FlowDataValueV)>;

    open spec fn deep_view(&self) -> Self::V {
        self.view()
    }
}

impl DeepView for FlowDataValue {
    type V = FlowDataValueV;

    open spec fn deep_view(&self) -> FlowDataValueV {
        self.view()
    }
}

impl Dictionary {
    /// Keys are unique: established by the constructor and preserved by every
    /// method.
    pub open spec fn wf(self) -> bool {
        dic_keys_unique(self@)
    }

    /// An empty dictionary.
    pub fn new() -> (r: Self)
        ensures
            r@ == Seq::<(Seq<char>, FlowDataValueV)>::empty(),
            r.wf(),
    {
        let r = Dictionary { entries: Vec::new() };
        proof {
            assert(r@ =~= Seq::<(Seq<char>, FlowDataValueV)>::empty());
        }
        r
    }

    /// How many entries the dictionary holds.
    pub fn len(&self) -> (r: usize)
        ensures
            r == self@.len(),
    {
        self.entries.len()
    }

    /// Map `key` to `value`: an existing entry keeps its position and takes
    /// the new value, a new key goes to the end.
    pub fn insert(&mut self, key: String, value: FlowDataValue)
        requires
            old(self).wf(),
        ensures
            final(self).wf(),
            dic_has_key(old(self)@, key@) ==> final(self)@ == old(self)@.update(
                dic_key_index(old(self)@, key@),
                (key@, value@),
            ),
            !dic_has_key(old(self)@, key@) ==> final(self)@ == old(self)@.push((key@, value@)),
    {
        let mut i: usize = 0;
        while i < self.entries.len()
            invariant
                self == old(self),
                dic_keys_unique(self@),
                i <= self@.len(),
                forall|j: int| 0 <= j < i ==> (#[trigger] self@[j]).0 != key@,
            decreases self@.len() - i,
        {
            if crate::tool::str_eq(self.entries[i].0.as_str(), key.as_str()) {
                proof {
                    assert(self@[i as int].0 == key@);
                    assert(dic_has_key(self@, key@));
                    let ci = dic_key_index(self@, key@);
                    assert(0 <= ci < self@.len() && self@[ci].0 == key@);
                    assert(ci == i);
                }
                self.entries[i] = (key, value);
                proof {
                    assert(final(self)@ =~= old(self)@.update(i as int, (key@, value@)));
                }
                return;
            }
            i = i + 1;
        }
        assert(!dic_has_key(self@, key@));
        self.entries.push((key, value));
        proof {
            assert(final(self)@ =~= old(self)@.push((key@, value@)));
        }
    }

    /// The value mapped to `key`, if the key is present.
    pub fn get(&self, key: &str) -> (r: Option<&FlowDataValue>)
        requires
            self.wf(),
        ensures
            match r {
                Some(v) => dic_has_key(self@, key@) && v@ == dic_value_of(self@, key@),
                None => !dic_has_key(self@, key@),
            },
    {
        let mut i: usize = 0;
        while i < self.entries.len()
            invariant
                dic_keys_unique(self@),
                i <= self@.len(),
                forall|j: int| 0 <= j < i ==> (#[trigger] self@[j]).0 != key@,
            decreases self@.len() - i,
        {
            if crate::tool::str_eq(self.entries[i].0.as_str(), key) {
                proof {
                    assert(self@[i as int].0 == key@);
                    assert(dic_has_key(self@, key@));
                    let ci = dic_key_index(self@, key@);
                    assert(0 <= ci < self@.len() && self@[ci].0 == key@);
                    assert(ci == i);
                }
                return Some(&self.entries[i].1);
            }
            i = i + 1;
        }
        None
    }

    /// Whether the dictionary holds `key`.
    pub fn contains_key(&self, key: &str) -> (r: bool)
        requires
            self.wf(),
        ensures
            r == dic_has_key(self@, key@),
    {
        self.get(key).is_some()
    }

    /// The entry at position `i` in insertion order, if there is one.
    pub fn entry_at(&self, i: usize) -> (r: Option<&(String, FlowDataValue)>)
        ensures
            match r {
                Some(e) => i < self@.len() && (e.0@, e.1@) == self@[i as int],
                None => i >= self@.len(),
            },
    {
        if i < self.entries.len() {
            Some(&self.entries[i])
        } else {
            None
        }
    }
}

/// The map an association list stands for, later pairs shadowing earlier
/// ones, with string keys.
pub open spec fn assoc_str_map(s: Seq<(Seq<char>, FlowDataValueV)>) -> Map<
    Seq<char>,
    FlowDataValueV,
>
    decreases s.len(),
{
    if s.len() == 0 {
        Map::empty()
    } else {
        assoc_str_map(s.drop_last()).insert(s.last().0, s.last().1)
    }
}

/// The map an association list stands for, later pairs shadowing earlier
/// ones, with 16-bit keys.
pub open spec fn assoc_u16_map(s: Seq<(u16, FlowDataValueV)>) -> Map<u16, FlowDataValueV>
    decreases s.len(),
{
    if s.len() == 0 {
        Map::empty()
    } else {
        assoc_u16_map(s.drop_last()).insert(s.last().0, s.last().1)
    }
}

/// Whether some entry of `s` holds `RefDic(d)` as its value, within the
/// first `n` entries.
pub open spec fn refs_dic_upto(s: Seq<(Seq<char>, FlowDataValueV)>, n: int, d: u16) -> bool {
    exists|i: int| 0 <= i < n && i < s.len() && (#[trigger] s[i]).1 == FlowDataValueV::RefDic(d)
}

/// Whether some entry of `s` holds `RefDic(d)` as its value.
pub open spec fn refs_dic(s: Seq<(Seq<char>, FlowDataValueV)>, d: u16) -> bool {
    refs_dic_upto(s, s.len() as int, d)
}

/// Whether some entry of `s` holds `RefVec(v)` as its value, within the
/// first `n` entries.
pub open spec fn refs_vec_upto(s: Seq<(Seq<char>, FlowDataValueV)>, n: int, v: u16) -> bool {
    exists|i: int| 0 <= i < n && i < s.len() && (#[trigger] s[i]).1 == FlowDataValueV::RefVec(v)
}

/// Whether some entry of `s` holds `RefVec(v)` as its value.
pub open spec fn refs_vec(s: Seq<(Seq<char>, FlowDataValueV)>, v: u16) -> bool {
    refs_vec_upto(s, s.len() as int, v)
}

/// Whether some element of `s` is `RefDic(d)`, within the first `n`.
pub open spec fn elem_refs_dic_upto(s: Seq<FlowDataValueV>, n: int, d: u16) -> bool {
    exists|i: int| 0 <= i < n && i < s.len() && #[trigger] s[i] == FlowDataValueV::RefDic(d)
}

/// Whether some element of `s` is `RefDic(d)`.
pub open spec fn elem_refs_dic(s: Seq<FlowDataValueV>, d: u16) -> bool {
    elem_refs_dic_upto(s, s.len() as int, d)
}

/// The dictionary holds the reserved key "idname" with something other than
/// a string: a structural error on append.
pub open spec fn idname_bad(s: Seq<(Seq<char>, FlowDataValueV)>) -> bool {
    dic_has_key(s, "idname"@) && !(dic_value_of(s, "idname"@) is Str)
}

/// The name index after appending dictionary `s` as index `id`: if `s` maps
/// "idname" to a string, that string now names `RefDic(id)`.
pub open spec fn idnames_after(
    m: Map<Seq<char>, FlowDataValueV>,
    s: Seq<(Seq<char>, FlowDataValueV)>,
    id: u16,
) -> Map<Seq<char>, FlowDataValueV> {
    if dic_has_key(s, "idname"@) {
        match dic_value_of(s, "idname"@) {
            FlowDataValueV::Str(nm) => m.insert(nm, FlowDataValueV::RefDic(id)),
            _ => m,
        }
    } else {
        m
    }
}

/// The mathematical shape of a [`FlowData`]: the entities, the two derived
/// caches as maps, and the two opaque header fields.
#[verifier::ext_equal]
pub struct FlowDataV {
    pub dictionaries: Seq<Seq<(Seq<char>, FlowDataValueV)>>,
    pub vectors: Seq<Seq<FlowDataValueV>>,
    pub idnames: Map<Seq<char>, FlowDataValueV>,
    pub backlink_dictionaries: Map<u16, FlowDataValueV>,
    pub backlink_vector: Map<u16, FlowDataValueV>,
    pub unknown1: u32,
    pub unknown2: u16,
}

/// Contain the data obtained from a binary flow file.
///
/// The file contain a list of dictionaries, and a list of vectors, ordered.
/// Each entry of the dictionary/vector can be a string or a reference to
/// another dic/vec. Dictionary are indexed by string, vectors by position.
/// Two derived caches are maintained as dictionaries are appended: the name
/// index for the reserved "idname" key, and the backlink index recording
/// which entity last referenced a dictionary or vector.
#[derive(Debug)]
pub struct FlowData {
    dictionaries: Vec<Dictionary>,
    vectors: Vec<Vec<FlowDataValue>>,
    idnames: Vec<(String, FlowDataValue)>,
    backlink_dictionaries: Vec<(u16, FlowDataValue)>,
    backlink_vector: Vec<(u16, FlowDataValue)>,
    /// opaque 32-bit header field, preserved verbatim across decode/encode
    pub unknown1: u32,
    /// opaque 16-bit header field, preserved verbatim across decode/encode
    pub unknown2: u16,
}

impl View for FlowData {
    type V = FlowDataV;

    closed spec fn view(&self) -> FlowDataV {
        FlowDataV {
            dictionaries: self.dictionaries.deep_view(),
            vectors: self.vectors.deep_view(),
            idnames: assoc_str_map(
                Seq::new(self.idnames@.len(), |i: int| (self.idnames@[i].0@, self.idnames@[i].1@)),
            ),
            backlink_dictionaries: assoc_u16_map(
                Seq::new(
                    self.backlink_dictionaries@.len(),
                    |i: int| (self.backlink_dictionaries@[i].0, self.backlink_dictionaries@[i].1@),
                ),
            ),
            backlink_vector: assoc_u16_map(
                Seq::new(
                    self.backlink_vector@.len(),
                    |i: int| (self.backlink_vector@[i].0, self.backlink_vector@[i].1@),
                ),
            ),
            unknown1: self.unknown1,
            unknown2: self.unknown2,
        }
    }
}

impl FlowData {
    /// Every dictionary of the graph has unique keys, and the entity counts
    /// never pass the 65536 the 16-bit index width admits.
    pub open spec fn wf(self) -> bool {
        &&& forall|i: int|
            0 <= i < self@.dictionaries.len() ==> dic_keys_unique(#[trigger] self@.dictionaries[i])
        &&& self@.dictionaries.len() <= 65536
        &&& self@.vectors.len() <= 65536
    }
}

impl Default for FlowData {
    /// An empty graph: no entities, empty caches, zeroed header fields.
    fn default() -> (r: Self)
        ensures
            r@.dictionaries == Seq::<Seq<(Seq<char>, FlowDataValueV)>>::empty(),
            r@.vectors == Seq::<Seq<FlowDataValueV>>::empty(),
            r@.idnames == Map::<Seq<char>, FlowDataValueV>::empty(),
            r@.backlink_dictionaries == Map::<u16, FlowDataValueV>::empty(),
            r@.backlink_vector == Map::<u16, FlowDataValueV>::empty(),
            r@.unknown1 == 0,
            r@.unknown2 == 0,
            r.wf(),
    {
        let r = FlowData {
            dictionaries: Vec::new(),
            vectors: Vec::new(),
            idnames: Vec::new(),
            backlink_dictionaries: Vec::new(),
            backlink_vector: Vec::new(),
            unknown1: 0,
            unknown2: 0,
        };
        proof {
            assert(r@.dictionaries =~= Seq::<Seq<(Seq<char>, FlowDataValueV)>>::empty());
            assert(r@.vectors =~= Seq::<Seq<FlowDataValueV>>::empty());
            assert(Seq::new(r.idnames@.len(), |i: int| (r.idnames@[i].0@, r.idnames@[i].1@))
                =~= Seq::<(Seq<char>, FlowDataValueV)>::empty());
            assert(Seq::new(
                r.backlink_dictionaries@.len(),
                |i: int| (r.backlink_dictionaries@[i].0, r.backlink_dictionaries@[i].1@),
            ) =~= Seq::<(u16, FlowDataValueV)>::empty());
            assert(Seq::new(
                r.backlink_vector@.len(),
                |i: int| (r.backlink_vector@[i].0, r.backlink_vector@[i].1@),
            ) =~= Seq::<(u16, FlowDataValueV)>::empty());
        }
        r
    }
}

/// Appending a pair to an association list inserts it into the map the list
/// stands for (string keys).
proof fn lemma_assoc_str_push(s: Seq<(Seq<char>, FlowDataValueV)>, k: Seq<char>, v: FlowDataValueV)
    ensures
        assoc_str_map(s.push((k, v))) == assoc_str_map(s).insert(k, v),
{
    assert(s.push((k, v)).drop_last() =~= s);
    assert(s.push((k, v)).last() == (k, v));
}

/// Appending a pair to an association list inserts it into the map the list
/// stands for (16-bit keys).
proof fn lemma_assoc_u16_push(s: Seq<(u16, FlowDataValueV)>, k: u16, v: FlowDataValueV)
    ensures
        assoc_u16_map(s.push((k, v))) == assoc_u16_map(s).insert(k, v),
{
    assert(s.push((k, v)).drop_last() =~= s);
    assert(s.push((k, v)).last() == (k, v));
}

impl FlowData {
    /// A new dictionary to the [`FlowData`]: it takes the next index, the
    /// name index learns its "idname" (which must be a string, or the append
    /// is refused whole), and every reference inside it is recorded in the
    /// backlink caches. Fails when the graph already holds 65536
    /// dictionaries.
    pub fn push_dictionary(&mut self, values: Dictionary) -> (r: Result<u16, FlowDataError>)
        requires
            old(self).wf(),
            values.wf(),
        ensures
            final(self).wf(),
            match r {
                Ok(id) => {
                    &&& old(self)@.dictionaries.len() <= u16::MAX
                    &&& !idname_bad(values@)
                    &&& id == old(self)@.dictionaries.len()
                    &&& final(self)@.dictionaries == old(self)@.dictionaries.push(values@)
                    &&& final(self)@.vectors == old(self)@.vectors
                    &&& final(self)@.unknown1 == old(self)@.unknown1
                    &&& final(self)@.unknown2 == old(self)@.unknown2
                    &&& final(self)@.idnames == idnames_after(old(self)@.idnames, values@, id)
                    &&& final(self)@.backlink_vector == old(self)@.backlink_vector.union_prefer_right(
                        Map::new(
                            |v: u16| refs_vec(values@, v),
                            |v: u16| FlowDataValueV::RefDic(id),
                        ),
                    )
                    &&& final(self)@.backlink_dictionaries == old(
                        self,
                    )@.backlink_dictionaries.union_prefer_right(
                        Map::new(
                            |d: u16| refs_dic(values@, d),
                            |d: u16| FlowDataValueV::RefDic(id),
                        ),
                    )
                },
                Err(e) => {
                    &&& *final(self) == *old(self)
                    &&& match e {
                        FlowDataError::TryFromIntError => old(self)@.dictionaries.len()
                            > u16::MAX,
                        FlowDataError::IDNameNotString(v) => {
                            &&& old(self)@.dictionaries.len() <= u16::MAX
                            &&& idname_bad(values@)
                            &&& v@ == dic_value_of(values@, "idname"@)
                        },
                        _ => false,
                    }
                },
            },
    {
        if self.dictionaries.len() > u16::MAX as usize {
            return Err(FlowDataError::TryFromIntError);
        }
        let actual_dictionary_id: u16 = self.dictionaries.len() as u16;
        let ghost old_view = self@;
        match values.get("idname") {
            Some(value) => match value {
                FlowDataValue::Str(s) => {
                    let nm = s.clone();
                    self.idnames.push((nm, FlowDataValue::RefDic(actual_dictionary_id)));
                    proof {
                        let pairs_old = Seq::new(
                            old(self).idnames@.len(),
                            |i: int| (old(self).idnames@[i].0@, old(self).idnames@[i].1@),
                        );
                        let pairs_new = Seq::new(
                            self.idnames@.len(),
                            |i: int| (self.idnames@[i].0@, self.idnames@[i].1@),
                        );
                        assert(pairs_new =~= pairs_old.push(
                            (s@, FlowDataValueV::RefDic(actual_dictionary_id)),
                        ));
                        lemma_assoc_str_push(
                            pairs_old,
                            s@,
                            FlowDataValueV::RefDic(actual_dictionary_id),
                        );
                        assert(self@.idnames == idnames_after(
                            old_view.idnames,
                            values@,
                            actual_dictionary_id,
                        ));
                    }
                },
                err_type => {
                    return Err(FlowDataError::IDNameNotString(err_type.clone()));
                },
            },
            None => {
                proof {
                    assert(self@.idnames == idnames_after(
                        old_view.idnames,
                        values@,
                        actual_dictionary_id,
                    ));
                }
            },
        }
        let ghost bd_target = old_view.backlink_dictionaries.union_prefer_right(
            Map::new(
                |d: u16| refs_dic(values@, d),
                |d: u16| FlowDataValueV::RefDic(actual_dictionary_id),
            ),
        );
        let ghost bv_target = old_view.backlink_vector.union_prefer_right(
            Map::new(
                |v: u16| refs_vec(values@, v),
                |v: u16| FlowDataValueV::RefDic(actual_dictionary_id),
            ),
        );
        let ghost mid = *self;
        let mut j: usize = 0;
        while j < values.len()
            invariant
                j <= values@.len(),
                self.dictionaries == mid.dictionaries,
                self.vectors == mid.vectors,
                self.idnames == mid.idnames,
                self.unknown1 == mid.unknown1,
                self.unknown2 == mid.unknown2,
                self@.backlink_dictionaries == old_view.backlink_dictionaries.union_prefer_right(
                    Map::new(
                        |d: u16| refs_dic_upto(values@, j as int, d),
                        |d: u16| FlowDataValueV::RefDic(actual_dictionary_id),
                    ),
                ),
                self@.backlink_vector == old_view.backlink_vector.union_prefer_right(
                    Map::new(
                        |v: u16| refs_vec_upto(values@, j as int, v),
                        |v: u16| FlowDataValueV::RefDic(actual_dictionary_id),
                    ),
                ),
            decreases values@.len() - j,
        {
            let ghost bd_pre = self@.backlink_dictionaries;
            let ghost bv_pre = self@.backlink_vector;
            let ghost bd_pairs_pre = Seq::new(
                self.backlink_dictionaries@.len(),
                |i: int| (self.backlink_dictionaries@[i].0, self.backlink_dictionaries@[i].1@),
            );
            let ghost bv_pairs_pre = Seq::new(
                self.backlink_vector@.len(),
                |i: int| (self.backlink_vector@[i].0, self.backlink_vector@[i].1@),
            );
            match values.entry_at(j) {
                Some(e) => {
                    match &e.1 {
                        FlowDataValue::RefDic(dicid) => {
                            let d0 = *dicid;
                            self.backlink_dictionaries.push(
                                (d0, FlowDataValue::RefDic(actual_dictionary_id)),
                            );
                            proof {
                                let bd_pairs_now = Seq::new(
                                    self.backlink_dictionaries@.len(),
                                    |i: int|
                                        (
                                            self.backlink_dictionaries@[i].0,
                                            self.backlink_dictionaries@[i].1@,
                                        ),
                                );
                                assert(bd_pairs_now =~= bd_pairs_pre.push(
                                    (d0, FlowDataValueV::RefDic(actual_dictionary_id)),
                                ));
                                lemma_assoc_u16_push(
                                    bd_pairs_pre,
                                    d0,
                                    FlowDataValueV::RefDic(actual_dictionary_id),
                                );
                                assert(values@[j as int].1 == FlowDataValueV::RefDic(d0));
                                assert forall|d: u16|
                                    refs_dic_upto(values@, j + 1, d) == (refs_dic_upto(
                                        values@,
                                        j as int,
                                        d,
                                    ) || d == d0) by {
                                    if refs_dic_upto(values@, j + 1, d) {
                                        let w = choose|i: int|
                                            0 <= i < j + 1 && i < values@.len() && (
                                            #[trigger] values@[i]).1 == FlowDataValueV::RefDic(d);
                                        if w < j {
                                            assert(refs_dic_upto(values@, j as int, d));
                                        } else {
                                            assert(d == d0);
                                        }
                                    }
                                    if refs_dic_upto(values@, j as int, d) {
                                        assert(refs_dic_upto(values@, j + 1, d));
                                    }
                                    if d == d0 {
                                        assert(values@[j as int].1 == FlowDataValueV::RefDic(d));
                                        assert(refs_dic_upto(values@, j + 1, d));
                                    }
                                }
                                assert(self@.backlink_dictionaries
                                    =~= old_view.backlink_dictionaries.union_prefer_right(
                                    Map::new(
                                        |d: u16| refs_dic_upto(values@, j + 1, d),
                                        |d: u16| FlowDataValueV::RefDic(actual_dictionary_id),
                                    ),
                                ));
                                assert forall|v: u16|
                                    refs_vec_upto(values@, j + 1, v) == refs_vec_upto(
                                        values@,
                                        j as int,
                                        v,
                                    ) by {
                                    if refs_vec_upto(values@, j + 1, v) {
                                        let w = choose|i: int|
                                            0 <= i < j + 1 && i < values@.len() && (
                                            #[trigger] values@[i]).1 == FlowDataValueV::RefVec(v);
                                        assert(w < j);
                                        assert(refs_vec_upto(values@, j as int, v));
                                    }
                                }
                                assert(self@.backlink_vector
                                    =~= old_view.backlink_vector.union_prefer_right(
                                    Map::new(
                                        |v: u16| refs_vec_upto(values@, j + 1, v),
                                        |v: u16| FlowDataValueV::RefDic(actual_dictionary_id),
                                    ),
                                ));
                            }
                        },
                        FlowDataValue::RefVec(vecid) => {
                            let v0 = *vecid;
                            self.backlink_vector.push(
                                (v0, FlowDataValue::RefDic(actual_dictionary_id)),
                            );
                            proof {
                                let bv_pairs_now = Seq::new(
                                    self.backlink_vector@.len(),
                                    |i: int|
                                        (self.backlink_vector@[i].0, self.backlink_vector@[i].1@),
                                );
                                assert(bv_pairs_now =~= bv_pairs_pre.push(
                                    (v0, FlowDataValueV::RefDic(actual_dictionary_id)),
                                ));
                                lemma_assoc_u16_push(
                                    bv_pairs_pre,
                                    v0,
                                    FlowDataValueV::RefDic(actual_dictionary_id),
                                );
                                assert(values@[j as int].1 == FlowDataValueV::RefVec(v0));
                                assert forall|v: u16|
                                    refs_vec_upto(values@, j + 1, v) == (refs_vec_upto(
                                        values@,
                                        j as int,
                                        v,
                                    ) || v == v0) by {
                                    if refs_vec_upto(values@, j + 1, v) {
                                        let w = choose|i: int|
                                            0 <= i < j + 1 && i < values@.len() && (
                                            #[trigger] values@[i]).1 == FlowDataValueV::RefVec(v);
                                        if w < j {
                                            assert(refs_vec_upto(values@, j as int, v));
                                        } else {
                                            assert(v == v0);
                                        }
                                    }
                                    if refs_vec_upto(values@, j as int, v) {
                                        assert(refs_vec_upto(values@, j + 1, v));
                                    }
                                    if v == v0 {
                                        assert(values@[j as int].1 == FlowDataValueV::RefVec(v));
                                        assert(refs_vec_upto(values@, j + 1, v));
                                    }
                                }
                                assert(self@.backlink_vector
                                    =~= old_view.backlink_vector.union_prefer_right(
                                    Map::new(
                                        |v: u16| refs_vec_upto(values@, j + 1, v),
                                        |v: u16| FlowDataValueV::RefDic(actual_dictionary_id),
                                    ),
                                ));
                                assert forall|d: u16|
                                    refs_dic_upto(values@, j + 1, d) == refs_dic_upto(
                                        values@,
                                        j as int,
                                        d,
                                    ) by {
                                    if refs_dic_upto(values@, j + 1, d) {
                                        let w = choose|i: int|
                                            0 <= i < j + 1 && i < values@.len() && (
                                            #[trigger] values@[i]).1 == FlowDataValueV::RefDic(d);
                                        assert(w < j);
                                        assert(refs_dic_upto(values@, j as int, d));
                                    }
                                }
                                assert(self@.backlink_dictionaries
                                    =~= old_view.backlink_dictionaries.union_prefer_right(
                                    Map::new(
                                        |d: u16| refs_dic_upto(values@, j + 1, d),
                                        |d: u16| FlowDataValueV::RefDic(actual_dictionary_id),
                                    ),
                                ));
                            }
                        },
                        FlowDataValue::Str(_) => {
                            proof {
                                assert(values@[j as int].1 is Str);
                                assert forall|d: u16|
                                    refs_dic_upto(values@, j + 1, d) == refs_dic_upto(
                                        values@,
                                        j as int,
                                        d,
                                    ) by {
                                    if refs_dic_upto(values@, j + 1, d) {
                                        let w = choose|i: int|
                                            0 <= i < j + 1 && i < values@.len() && (
                                            #[trigger] values@[i]).1 == FlowDataValueV::RefDic(d);
                                        assert(w < j);
                                        assert(refs_dic_upto(values@, j as int, d));
                                    }
                                }
                                assert forall|v: u16|
                                    refs_vec_upto(values@, j + 1, v) == refs_vec_upto(
                                        values@,
                                        j as int,
                                        v,
                                    ) by {
                                    if refs_vec_upto(values@, j + 1, v) {
                                        let w = choose|i: int|
                                            0 <= i < j + 1 && i < values@.len() && (
                                            #[trigger] values@[i]).1 == FlowDataValueV::RefVec(v);
                                        assert(w < j);
                                        assert(refs_vec_upto(values@, j as int, v));
                                    }
                                }
                                assert(self@.backlink_dictionaries
                                    =~= old_view.backlink_dictionaries.union_prefer_right(
                                    Map::new(
                                        |d: u16| refs_dic_upto(values@, j + 1, d),
                                        |d: u16| FlowDataValueV::RefDic(actual_dictionary_id),
                                    ),
                                ));
                                assert(self@.backlink_vector
                                    =~= old_view.backlink_vector.union_prefer_right(
                                    Map::new(
                                        |v: u16| refs_vec_upto(values@, j + 1, v),
                                        |v: u16| FlowDataValueV::RefDic(actual_dictionary_id),
                                    ),
                                ));
                            }
                        },
                    }
                },
                None => {
                    assert(false);
                },
            }
            j = j + 1;
        }
        proof {
            assert(self@.backlink_dictionaries =~= bd_target);
            assert(self@.backlink_vector =~= bv_target);
        }
        let ghost vv = values@;
        let ghost pre_push = *self;
        self.dictionaries.push(values);
        proof {
            assert(self@.dictionaries =~= old_view.dictionaries.push(vv));
            assert(self@.vectors =~= old_view.vectors);
            assert(self@.idnames == idnames_after(
                old_view.idnames,
                vv,
                actual_dictionary_id,
            ));
            assert(self@.backlink_dictionaries == bd_target);
            assert(self@.backlink_vector == bv_target);
            assert forall|i: int|
                0 <= i < self@.dictionaries.len() implies dic_keys_unique(
                #[trigger] self@.dictionaries[i],
            ) by {
                if i < old_view.dictionaries.len() {
                    assert(old(self).wf());
                    assert(self@.dictionaries[i] == old_view.dictionaries[i]);
                } else {
                    assert(self@.dictionaries[i] == vv);
                }
            }
        }
        Ok(actual_dictionary_id)
    }

    /// Add a new vector in the [`FlowData`]: it takes the next vector index,
    /// and every dictionary reference among its elements is recorded in the
    /// dictionary backlink cache, keyed by the would-be next dictionary
    /// index. Fails when the graph already holds 65536 vectors, or 65536
    /// dictionaries (the backlink key no longer fits).
    pub fn push_vector(&mut self, values: Vec<FlowDataValue>) -> (r: Result<u16, FlowDataError>)
        requires
            old(self).wf(),
        ensures
            final(self).wf(),
            match r {
                Ok(id) => {
                    &&& old(self)@.dictionaries.len() <= u16::MAX
                    &&& old(self)@.vectors.len() <= u16::MAX
                    &&& id == old(self)@.vectors.len()
                    &&& final(self)@.vectors == old(self)@.vectors.push(values.deep_view())
                    &&& final(self)@.dictionaries == old(self)@.dictionaries
                    &&& final(self)@.unknown1 == old(self)@.unknown1
                    &&& final(self)@.unknown2 == old(self)@.unknown2
                    &&& final(self)@.idnames == old(self)@.idnames
                    &&& final(self)@.backlink_vector == old(self)@.backlink_vector
                    &&& final(self)@.backlink_dictionaries == old(
                        self,
                    )@.backlink_dictionaries.union_prefer_right(
                        Map::new(
                            |d: u16| elem_refs_dic(values.deep_view(), d),
                            |d: u16|
                                FlowDataValueV::RefDic(
                                    old(self)@.dictionaries.len() as u16,
                                ),
                        ),
                    )
                },
                Err(e) => {
                    &&& *final(self) == *old(self)
                    &&& e is TryFromIntError
                    &&& (old(self)@.dictionaries.len() > u16::MAX || old(self)@.vectors.len()
                        > u16::MAX)
                },
            },
    {
        if self.dictionaries.len() > u16::MAX as usize {
            return Err(FlowDataError::TryFromIntError);
        }
        if self.vectors.len() > u16::MAX as usize {
            return Err(FlowDataError::TryFromIntError);
        }
        let actual_dictionary_id: u16 = self.dictionaries.len() as u16;
        let actual_vector_id: u16 = self.vectors.len() as u16;
        let ghost old_view = self@;
        let ghost vv = values.deep_view();
        let ghost bd_target = old_view.backlink_dictionaries.union_prefer_right(
            Map::new(
                |d: u16| elem_refs_dic(vv, d),
                |d: u16| FlowDataValueV::RefDic(actual_dictionary_id),
            ),
        );
        let mut j: usize = 0;
        while j < values.len()
            invariant
                j <= values@.len(),
                vv == values.deep_view(),
                self.dictionaries == old(self).dictionaries,
                self.vectors == old(self).vectors,
                self.idnames == old(self).idnames,
                self.backlink_vector == old(self).backlink_vector,
                self.unknown1 == old(self).unknown1,
                self.unknown2 == old(self).unknown2,
                self@.backlink_dictionaries == old_view.backlink_dictionaries.union_prefer_right(
                    Map::new(
                        |d: u16| elem_refs_dic_upto(vv, j as int, d),
                        |d: u16| FlowDataValueV::RefDic(actual_dictionary_id),
                    ),
                ),
            decreases values@.len() - j,
        {
            let ghost bd_pairs_pre = Seq::new(
                self.backlink_dictionaries@.len(),
                |i: int| (self.backlink_dictionaries@[i].0, self.backlink_dictionaries@[i].1@),
            );
            match &values[j] {
                FlowDataValue::RefDic(dicid) => {
                    let d0 = *dicid;
                    self.backlink_dictionaries.push(
                        (d0, FlowDataValue::RefDic(actual_dictionary_id)),
                    );
                    proof {
                        let bd_pairs_now = Seq::new(
                            self.backlink_dictionaries@.len(),
                            |i: int|
                                (
                                    self.backlink_dictionaries@[i].0,
                                    self.backlink_dictionaries@[i].1@,
                                ),
                        );
                        assert(bd_pairs_now =~= bd_pairs_pre.push(
                            (d0, FlowDataValueV::RefDic(actual_dictionary_id)),
                        ));
                        lemma_assoc_u16_push(
                            bd_pairs_pre,
                            d0,
                            FlowDataValueV::RefDic(actual_dictionary_id),
                        );
                        assert(vv[j as int] == FlowDataValueV::RefDic(d0));
                        assert forall|d: u16|
                            elem_refs_dic_upto(vv, j + 1, d) == (elem_refs_dic_upto(
                                vv,
                                j as int,
                                d,
                            ) || d == d0) by {
                            if elem_refs_dic_upto(vv, j + 1, d) {
                                let w = choose|i: int|
                                    0 <= i < j + 1 && i < vv.len() && #[trigger] vv[i]
                                        == FlowDataValueV::RefDic(d);
                                if w < j {
                                    assert(elem_refs_dic_upto(vv, j as int, d));
                                } else {
                                    assert(d == d0);
                                }
                            }
                            if elem_refs_dic_upto(vv, j as int, d) {
                                assert(elem_refs_dic_upto(vv, j + 1, d));
                            }
                            if d == d0 {
                                assert(vv[j as int] == FlowDataValueV::RefDic(d));
                                assert(elem_refs_dic_upto(vv, j + 1, d));
                            }
                        }
                        assert(self@.backlink_dictionaries
                            =~= old_view.backlink_dictionaries.union_prefer_right(
                            Map::new(
                                |d: u16| elem_refs_dic_upto(vv, j + 1, d),
                                |d: u16| FlowDataValueV::RefDic(actual_dictionary_id),
                            ),
                        ));
                    }
                },
                _ => {
                    proof {
                        assert(!(vv[j as int] is RefDic));
                        assert forall|d: u16|
                            elem_refs_dic_upto(vv, j + 1, d) == elem_refs_dic_upto(
                                vv,
                                j as int,
                                d,
                            ) by {
                            if elem_refs_dic_upto(vv, j + 1, d) {
                                let w = choose|i: int|
                                    0 <= i < j + 1 && i < vv.len() && #[trigger] vv[i]
                                        == FlowDataValueV::RefDic(d);
                                assert(w < j);
                                assert(elem_refs_dic_upto(vv, j as int, d));
                            }
                        }
                        assert(self@.backlink_dictionaries
                            =~= old_view.backlink_dictionaries.union_prefer_right(
                            Map::new(
                                |d: u16| elem_refs_dic_upto(vv, j + 1, d),
                                |d: u16| FlowDataValueV::RefDic(actual_dictionary_id),
                            ),
                        ));
                    }
                },
            }
            j = j + 1;
        }
        proof {
            assert(self@.backlink_dictionaries =~= bd_target);
        }
        self.vectors.push(values);
        proof {
            assert(self@.vectors =~= old_view.vectors.push(vv));
            assert(self@.dictionaries =~= old_view.dictionaries);
        }
        Ok(actual_vector_id)
    }

    /// return the number of dictionary
    pub fn dictionary_len(&self) -> (r: usize)
        ensures
            r == self@.dictionaries.len(),
    {
        self.dictionaries.len()
    }

    /// return the number of vector
    pub fn vector_len(&self) -> (r: usize)
        ensures
            r == self@.vectors.len(),
    {
        self.vectors.len()
    }

    /// return a reference to a dictionary if it exist, None otherwise
    pub fn get_dictionary(&self, dicid: usize) -> (r: Option<&Dictionary>)
        requires
            self.wf(),
        ensures
            match r {
                Some(d) => {
                    &&& dicid < self@.dictionaries.len()
                    &&& d@ == self@.dictionaries[dicid as int]
                    &&& d.wf()
                },
                None => dicid >= self@.dictionaries.len(),
            },
    {
        if dicid >= self.dictionaries.len() {
            None
        } else {
            Some(&self.dictionaries[dicid])
        }
    }

    /// return a mutable reference to a dictionary if it exist, None otherwise
    pub fn get_dictionary_mut(&mut self, dicid: usize) -> (r: Option<&mut Dictionary>)
        requires
            old(self).wf(),
        ensures
            dicid < old(self)@.dictionaries.len() <==> r is Some,
            r is None ==> *final(self) == *old(self),
            r is Some ==> {
                &&& r.unwrap()@ == old(self)@.dictionaries[dicid as int]
                &&& r.unwrap().wf()
                &&& final(self)@.dictionaries == old(self)@.dictionaries.update(
                    dicid as int,
                    final(r.unwrap())@,
                )
                &&& final(self)@.vectors == old(self)@.vectors
                &&& final(self)@.idnames == old(self)@.idnames
                &&& final(self)@.backlink_dictionaries == old(self)@.backlink_dictionaries
                &&& final(self)@.backlink_vector == old(self)@.backlink_vector
                &&& final(self)@.unknown1 == old(self)@.unknown1
                &&& final(self)@.unknown2 == old(self)@.unknown2
                &&& (final(r.unwrap()).wf() ==> final(self).wf())
            },
    {
        if dicid >= self.dictionaries.len() {
            None
        } else {
            Some(&mut self.dictionaries[dicid])
        }
    }

    /// return a reference to a vector if it exist, None otherwise.
    pub fn get_vector(&self, vecid: usize) -> (r: Option<&Vec<FlowDataValue>>)
        ensures
            match r {
                Some(v) => {
                    &&& vecid < self@.vectors.len()
                    &&& v.deep_view() == self@.vectors[vecid as int]
                },
                None => vecid >= self@.vectors.len(),
            },
    {
        if vecid >= self.vectors.len() {
            None
        } else {
            Some(&self.vectors[vecid])
        }
    }

    /// return a mutable reference to a vector if it exist, None otherwise.
    pub fn get_vector_mut(&mut self, vecid: usize) -> (r: Option<&mut Vec<FlowDataValue>>)
        ensures
            vecid < old(self)@.vectors.len() <==> r is Some,
            r is None ==> *final(self) == *old(self),
            r is Some ==> {
                &&& r.unwrap().deep_view() == old(self)@.vectors[vecid as int]
                &&& final(self)@.vectors == old(self)@.vectors.update(
                    vecid as int,
                    final(r.unwrap()).deep_view(),
                )
                &&& final(self)@.dictionaries == old(self)@.dictionaries
                &&& final(self)@.idnames == old(self)@.idnames
                &&& final(self)@.backlink_dictionaries == old(self)@.backlink_dictionaries
                &&& final(self)@.backlink_vector == old(self)@.backlink_vector
                &&& final(self)@.unknown1 == old(self)@.unknown1
                &&& final(self)@.unknown2 == old(self)@.unknown2
                &&& (old(self).wf() ==> final(self).wf())
            },
    {
        if vecid >= self.vectors.len() {
            None
        } else {
            Some(&mut self.vectors[vecid])
        }
    }
}

/// The section table of a container, read from its header: absolute
/// pointers, entity counts, and the section lengths derived from the
/// layout around each section.
#[derive(Clone, Copy, Debug)]
pub struct SectionTable {
    pub unknown1: u32,
    pub info_ptr: u32,
    pub dic_count: u32,
    pub dic_section_ptr: u32,
    pub vec_count: u32,
    pub vec_section_ptr: u32,
    pub strptr_section_ptr: u32,
    pub val_section_ptr: u32,
    pub keyval_section_ptr: u32,
    pub unknown2: u16,
    pub val_section_len: u32,
    pub keyval_section_len: u32,
    pub strptr_section_len: u32,
}

/// Parse the fixed header and the content header it points at: every
/// multi-byte read is little-endian, every failed read is an I/O error, and
/// the value, keyval and info sections must sit in non-decreasing order for
/// the derived lengths to exist. The string-pointer-table length is derived
/// from the layout: the table ends where the next emitted block begins —
/// the second dictionary's entry list, else the second vector's, else the
/// raw string bytes less the two alignment bytes before them. A block
/// pointer below the table start leaves the length zero.
pub open spec fn spec_parse_header(data: Seq<u8>) -> Result<SectionTable, FlowDataErrorV> {
    if data.len() < 12 {
        Err(FlowDataErrorV::IOError)
    } else {
        let cp = u32_le_at(data, 4) as int;
        if cp + 36 > data.len() {
            Err(FlowDataErrorV::IOError)
        } else {
            let unknown1 = u32_le_at(data, cp);
            let info_ptr = u32_le_at(data, cp + 4);
            let dic_count = u32_le_at(data, cp + 8);
            let dic_section_ptr = u32_le_at(data, cp + 12);
            let vec_count = u32_le_at(data, cp + 16);
            let vec_section_ptr = u32_le_at(data, cp + 20);
            let strptr_section_ptr = u32_le_at(data, cp + 24);
            let val_section_ptr = u32_le_at(data, cp + 28);
            let keyval_section_ptr = u32_le_at(data, cp + 32);
            if info_ptr + 12 > data.len() {
                Err(FlowDataErrorV::IOError)
            } else {
                let unknown2 = u16_le_at(data, info_ptr as int);
                if val_section_ptr > keyval_section_ptr {
                    Err(FlowDataErrorV::NonMonotonicPointer(val_section_ptr, keyval_section_ptr))
                } else if keyval_section_ptr > info_ptr {
                    Err(FlowDataErrorV::NonMonotonicPointer(keyval_section_ptr, info_ptr))
                } else {
                    let end_src: int = if dic_count >= 2 {
                        dic_section_ptr + 12
                    } else if vec_count >= 2 {
                        vec_section_ptr + 12
                    } else {
                        info_ptr + 12
                    };
                    if end_src + 4 > data.len() {
                        Err(FlowDataErrorV::IOError)
                    } else {
                        let strptr_end: int = if dic_count >= 2 || vec_count >= 2 {
                            u32_le_at(data, end_src) as int
                        } else {
                            u32_le_at(data, end_src) - 2
                        };
                        Ok(
                            SectionTable {
                                unknown1,
                                info_ptr,
                                dic_count,
                                dic_section_ptr,
                                vec_count,
                                vec_section_ptr,
                                strptr_section_ptr,
                                val_section_ptr,
                                keyval_section_ptr,
                                unknown2,
                                val_section_len: ((keyval_section_ptr - val_section_ptr)
                                    / 4) as u32,
                                keyval_section_len: ((info_ptr - keyval_section_ptr) / 4) as u32,
                                strptr_section_len: (if strptr_end >= strptr_section_ptr {
                                    ((strptr_end - strptr_section_ptr) / 4) as u32
                                } else {
                                    0
                                }),
                            },
                        )
                    }
                }
            }
        }
    }
}

/// Follow the absolute 4-byte pointer at `pos` and read the null-terminated
/// UTF-8 string it points at.
pub open spec fn spec_read_cstr(data: Seq<u8>, pos: int) -> Result<Seq<char>, FlowDataErrorV> {
    if pos < 0 || pos + 4 > data.len() {
        Err(FlowDataErrorV::IOError)
    } else {
        let sptr = u32_le_at(data, pos) as int;
        match crate::tool::find_nul(data, sptr) {
            Option::None => Err(FlowDataErrorV::IOError),
            Option::Some(_) => if vstd::utf8::valid_utf8(crate::tool::cstring_bytes(data, sptr)) {
                Ok(vstd::utf8::decode_utf8(crate::tool::cstring_bytes(data, sptr)))
            } else {
                Err(FlowDataErrorV::InvalidUtf8)
            },
        }
    }
}

/// Resolve a dictionary-side value id: read its tagged 4-byte record and
/// follow the tag, bounds-checking the payload.
pub open spec fn spec_parse_dict_value(data: Seq<u8>, h: SectionTable, val_id: u16) -> Result<
    FlowDataValueV,
    FlowDataErrorV,
> {
    let vpos = h.val_section_ptr + 4 * (val_id as int);
    if vpos + 4 > data.len() {
        Err(FlowDataErrorV::IOError)
    } else {
        let tag = u16_le_at(data, vpos);
        let vd = u16_le_at(data, vpos + 2);
        if tag == 0 {
            if vd as u32 >= h.strptr_section_len {
                Err(FlowDataErrorV::StringReferenceTooBig(vd, h.strptr_section_len))
            } else {
                match spec_read_cstr(data, h.strptr_section_ptr + 4 * (vd as int)) {
                    Err(e) => Err(e),
                    Ok(s) => Ok(FlowDataValueV::Str(s)),
                }
            }
        } else if tag == 1 {
            if vd as u32 >= h.dic_count {
                Err(FlowDataErrorV::DicReferenceTooBig(vd, h.dic_count))
            } else {
                Ok(FlowDataValueV::RefDic(vd))
            }
        } else if tag == 2 {
            if vd as u32 >= h.vec_count {
                Err(FlowDataErrorV::VecReferenceTooBig(vd, h.vec_count))
            } else {
                Ok(FlowDataValueV::RefVec(vd))
            }
        } else {
            Err(FlowDataErrorV::UnrecognizedTypeForDic(tag))
        }
    }
}

/// Parse one dictionary entry: the 16-bit keyval id at `idpos`, the keyval
/// record it selects, the key string and the value the record selects.
pub open spec fn spec_parse_dict_entry(data: Seq<u8>, h: SectionTable, idpos: int) -> Result<
    (Seq<char>, FlowDataValueV),
    FlowDataErrorV,
> {
    if idpos + 2 > data.len() {
        Err(FlowDataErrorV::IOError)
    } else {
        let kvid = u16_le_at(data, idpos);
        if kvid as u32 >= h.keyval_section_len {
            Err(FlowDataErrorV::KeyValTooBig(kvid, h.keyval_section_len))
        } else {
            let kpos = h.keyval_section_ptr + 4 * (kvid as int);
            if kpos + 4 > data.len() {
                Err(FlowDataErrorV::IOError)
            } else {
                let key_id = u16_le_at(data, kpos);
                let val_id = u16_le_at(data, kpos + 2);
                if key_id as u32 >= h.strptr_section_len {
                    Err(FlowDataErrorV::StringReferenceTooBig(key_id, h.strptr_section_len))
                } else if val_id as u32 >= h.val_section_len {
                    Err(FlowDataErrorV::ValTooBig(val_id, h.val_section_len))
                } else {
                    match spec_read_cstr(data, h.strptr_section_ptr + 4 * (key_id as int)) {
                        Err(e) => Err(e),
                        Ok(key) => match spec_parse_dict_value(data, h, val_id) {
                            Err(e) => Err(e),
                            Ok(v) => Ok((key, v)),
                        },
                    }
                }
            }
        }
    }
}

/// Parse the entries of one dictionary, from the `c`-th on: 16-bit keyval
/// ids packed from `ptr` on.
pub open spec fn spec_parse_dict_entries(
    data: Seq<u8>,
    h: SectionTable,
    ptr: u32,
    size: u32,
    c: int,
) -> Result<Seq<(Seq<char>, FlowDataValueV)>, FlowDataErrorV>
    decreases size - c,
{
    if c < 0 || c >= size {
        Ok(Seq::empty())
    } else {
        match spec_parse_dict_entry(data, h, ptr + 2 * c) {
            Err(e) => Err(e),
            Ok(p) => match spec_parse_dict_entries(data, h, ptr, size, c + 1) {
                Err(e) => Err(e),
                Ok(rest) => Ok(seq![p] + rest),
            },
        }
    }
}

/// Parse the dictionaries from index `i` on: each one's (size, pointer)
/// record sits at `dic_section_ptr + 8 * i`, its pointer must not fall below
/// its predecessor's, its entries become a dictionary (a later duplicate key
/// winning), and the append itself can fail as [`FlowData::push_dictionary`]
/// does.
pub open spec fn spec_parse_dicts(data: Seq<u8>, h: SectionTable, i: int, prev_ptr: u32) -> Result<
    Seq<Seq<(Seq<char>, FlowDataValueV)>>,
    FlowDataErrorV,
>
    decreases h.dic_count - i,
{
    if i < 0 || i >= h.dic_count {
        Ok(Seq::empty())
    } else {
        let rpos = h.dic_section_ptr + 8 * i;
        if rpos + 8 > data.len() {
            Err(FlowDataErrorV::IOError)
        } else {
            let size = u32_le_at(data, rpos);
            let ptr = u32_le_at(data, rpos + 4);
            if prev_ptr > ptr {
                Err(FlowDataErrorV::NonMonotonicPointer(prev_ptr, ptr))
            } else {
                match spec_parse_dict_entries(data, h, ptr, size, 0) {
                    Err(e) => Err(e),
                    Ok(pairs) => {
                        let dic = dic_from_pairs(pairs);
                        if i > u16::MAX {
                            Err(FlowDataErrorV::TryFromIntError)
                        } else if idname_bad(dic) {
                            Err(
                                FlowDataErrorV::IDNameNotString(
                                    dic_value_of(dic, "idname"@),
                                ),
                            )
                        } else {
                            match spec_parse_dicts(data, h, i + 1, ptr) {
                                Err(e) => Err(e),
                                Ok(rest) => Ok(seq![dic] + rest),
                            }
                        }
                    },
                }
            }
        }
    }
}

/// Resolve a vector-side value id: read its tagged 4-byte record and
/// bounds-check the payload as on the dictionary side; only a string or a
/// dictionary reference may appear inside a vector.
pub open spec fn spec_parse_vec_value(data: Seq<u8>, h: SectionTable, val_id: u16) -> Result<
    FlowDataValueV,
    FlowDataErrorV,
> {
    let vpos = h.val_section_ptr + 4 * (val_id as int);
    if vpos + 4 > data.len() {
        Err(FlowDataErrorV::IOError)
    } else {
        let tag = u16_le_at(data, vpos);
        let vd = u16_le_at(data, vpos + 2);
        if tag == 0 {
            if vd as u32 >= h.strptr_section_len {
                Err(FlowDataErrorV::StringReferenceTooBig(vd, h.strptr_section_len))
            } else {
                match spec_read_cstr(data, h.strptr_section_ptr + 4 * (vd as int)) {
                    Err(e) => Err(e),
                    Ok(s) => Ok(FlowDataValueV::Str(s)),
                }
            }
        } else if tag == 1 {
            if vd as u32 >= h.dic_count {
                Err(FlowDataErrorV::DicReferenceTooBig(vd, h.dic_count))
            } else {
                Ok(FlowDataValueV::RefDic(vd))
            }
        } else {
            Err(FlowDataErrorV::UnrecognizedTypeForVec(tag))
        }
    }
}

/// Parse one vector element: the 16-bit value id at `idpos`, then the value
/// record it selects directly (no keyval indirection).
pub open spec fn spec_parse_vec_entry(data: Seq<u8>, h: SectionTable, idpos: int) -> Result<
    FlowDataValueV,
    FlowDataErrorV,
> {
    if idpos + 2 > data.len() {
        Err(FlowDataErrorV::IOError)
    } else {
        let vid = u16_le_at(data, idpos);
        if vid as u32 >= h.val_section_len {
            Err(FlowDataErrorV::ValTooBig(vid, h.val_section_len))
        } else {
            spec_parse_vec_value(data, h, vid)
        }
    }
}

/// Parse the elements of one vector, from the `c`-th on.
pub open spec fn spec_parse_vec_entries(
    data: Seq<u8>,
    h: SectionTable,
    ptr: u32,
    size: u32,
    c: int,
) -> Result<Seq<FlowDataValueV>, FlowDataErrorV>
    decreases size - c,
{
    if c < 0 || c >= size {
        Ok(Seq::empty())
    } else {
        match spec_parse_vec_entry(data, h, ptr + 2 * c) {
            Err(e) => Err(e),
            Ok(v) => match spec_parse_vec_entries(data, h, ptr, size, c + 1) {
                Err(e) => Err(e),
                Ok(rest) => Ok(seq![v] + rest),
            },
        }
    }
}

/// Parse the vectors from index `i` on. The append can fail as
/// [`FlowData::push_vector`] does: when the vector index no longer fits 16
/// bits, or when the graph's dictionary count does not.
pub open spec fn spec_parse_vecs(data: Seq<u8>, h: SectionTable, i: int) -> Result<
    Seq<Seq<FlowDataValueV>>,
    FlowDataErrorV,
>
    decreases h.vec_count - i,
{
    if i < 0 || i >= h.vec_count {
        Ok(Seq::empty())
    } else {
        let rpos = h.vec_section_ptr + 8 * i;
        if rpos + 8 > data.len() {
            Err(FlowDataErrorV::IOError)
        } else {
            let size = u32_le_at(data, rpos);
            let ptr = u32_le_at(data, rpos + 4);
            match spec_parse_vec_entries(data, h, ptr, size, 0) {
                Err(e) => Err(e),
                Ok(vals) => {
                    if h.dic_count > u16::MAX || i > u16::MAX {
                        Err(FlowDataErrorV::TryFromIntError)
                    } else {
                        match spec_parse_vecs(data, h, i + 1) {
                            Err(e) => Err(e),
                            Ok(rest) => Ok(seq![vals] + rest),
                        }
                    }
                },
            }
        }
    }
}

/// Bounds checks: a dictionary entry whose 16-bit keyval id reaches the
/// keyval section length fails with the keyval-out-of-range error carrying
/// exactly that id and the bound it exceeded. Together with
/// [`FlowData::new`]'s equality with [`spec_decode`], this pins the error
/// the decoder reports for any container whose first invalid record is such
/// an id.
pub proof fn lemma_keyval_bound_rejected(data: Seq<u8>, h: SectionTable, idpos: int)
    requires
        0 <= idpos,
        idpos + 2 <= data.len(),
        u16_le_at(data, idpos) as u32 >= h.keyval_section_len,
    ensures
        spec_parse_dict_entry(data, h, idpos) == Err::<
            (Seq<char>, FlowDataValueV),
            FlowDataErrorV,
        >(FlowDataErrorV::KeyValTooBig(u16_le_at(data, idpos), h.keyval_section_len)),
{
}

/// Bounds checks, dictionary side: a value record whose payload reaches its
/// bound fails with the matching out-of-range error carrying the offending
/// id and the bound — the string-pointer bound for tag 0, the dictionary
/// count for tag 1, the vector count for tag 2 — and any later tag is the
/// dictionary unrecognized-type error.
pub proof fn lemma_dict_value_bounds(data: Seq<u8>, h: SectionTable, val_id: u16)
    requires
        0 <= h.val_section_ptr + 4 * (val_id as int),
        h.val_section_ptr + 4 * (val_id as int) + 4 <= data.len(),
    ensures
        ({
            let vpos = h.val_section_ptr + 4 * (val_id as int);
            let tag = u16_le_at(data, vpos);
            let vd = u16_le_at(data, vpos + 2);
            &&& (tag == 0 && vd as u32 >= h.strptr_section_len ==> spec_parse_dict_value(
                data,
                h,
                val_id,
            ) == Err::<FlowDataValueV, FlowDataErrorV>(
                FlowDataErrorV::StringReferenceTooBig(vd, h.strptr_section_len),
            ))
            &&& (tag == 1 && vd as u32 >= h.dic_count ==> spec_parse_dict_value(data, h, val_id)
                == Err::<FlowDataValueV, FlowDataErrorV>(
                FlowDataErrorV::DicReferenceTooBig(vd, h.dic_count),
            ))
            &&& (tag == 2 && vd as u32 >= h.vec_count ==> spec_parse_dict_value(data, h, val_id)
                == Err::<FlowDataValueV, FlowDataErrorV>(
                FlowDataErrorV::VecReferenceTooBig(vd, h.vec_count),
            ))
            &&& (tag >= 3 ==> spec_parse_dict_value(data, h, val_id) == Err::<
                FlowDataValueV,
                FlowDataErrorV,
            >(FlowDataErrorV::UnrecognizedTypeForDic(tag)))
        }),
{
}

/// Bounds checks, vector side: an element id reaching the value section
/// length fails with the value-out-of-range error carrying that id and
/// bound.
pub proof fn lemma_vec_entry_bound_rejected(data: Seq<u8>, h: SectionTable, idpos: int)
    requires
        0 <= idpos,
        idpos + 2 <= data.len(),
        u16_le_at(data, idpos) as u32 >= h.val_section_len,
    ensures
        spec_parse_vec_entry(data, h, idpos) == Err::<FlowDataValueV, FlowDataErrorV>(
            FlowDataErrorV::ValTooBig(u16_le_at(data, idpos), h.val_section_len),
        ),
{
}

/// Vector type restriction: a value record reached from a vector whose tag
/// is 2 or more — a vector reference among them — fails with the vector
/// unrecognized-type error; vectors may hold only strings and dictionary
/// references. The in-range bounds mirror the dictionary side.
pub proof fn lemma_vec_value_bounds(data: Seq<u8>, h: SectionTable, val_id: u16)
    requires
        0 <= h.val_section_ptr + 4 * (val_id as int),
        h.val_section_ptr + 4 * (val_id as int) + 4 <= data.len(),
    ensures
        ({
            let vpos = h.val_section_ptr + 4 * (val_id as int);
            let tag = u16_le_at(data, vpos);
            let vd = u16_le_at(data, vpos + 2);
            &&& (tag >= 2 ==> spec_parse_vec_value(data, h, val_id) == Err::<
                FlowDataValueV,
                FlowDataErrorV,
            >(FlowDataErrorV::UnrecognizedTypeForVec(tag)))
            &&& (tag == 0 && vd as u32 >= h.strptr_section_len ==> spec_parse_vec_value(
                data,
                h,
                val_id,
            ) == Err::<FlowDataValueV, FlowDataErrorV>(
                FlowDataErrorV::StringReferenceTooBig(vd, h.strptr_section_len),
            ))
            &&& (tag == 1 && vd as u32 >= h.dic_count ==> spec_parse_vec_value(data, h, val_id)
                == Err::<FlowDataValueV, FlowDataErrorV>(
                FlowDataErrorV::DicReferenceTooBig(vd, h.dic_count),
            ))
        }),
{
}

/// The name index a graph holds after its dictionaries were appended in
/// order.
pub open spec fn idnames_fold(dicts: Seq<Seq<(Seq<char>, FlowDataValueV)>>) -> Map<
    Seq<char>,
    FlowDataValueV,
>
    decreases dicts.len(),
{
    if dicts.len() == 0 {
        Map::empty()
    } else {
        idnames_after(
            idnames_fold(dicts.drop_last()),
            dicts.last(),
            (dicts.len() - 1) as u16,
        )
    }
}

/// The dictionary backlinks a graph holds after its dictionaries were
/// appended in order.
pub open spec fn bd_fold_dicts(dicts: Seq<Seq<(Seq<char>, FlowDataValueV)>>) -> Map<
    u16,
    FlowDataValueV,
>
    decreases dicts.len(),
{
    if dicts.len() == 0 {
        Map::empty()
    } else {
        bd_fold_dicts(dicts.drop_last()).union_prefer_right(
            Map::new(
                |d: u16| refs_dic(dicts.last(), d),
                |d: u16| FlowDataValueV::RefDic((dicts.len() - 1) as u16),
            ),
        )
    }
}

/// The vector backlinks a graph holds after its dictionaries were appended
/// in order.
pub open spec fn bv_fold_dicts(dicts: Seq<Seq<(Seq<char>, FlowDataValueV)>>) -> Map<
    u16,
    FlowDataValueV,
>
    decreases dicts.len(),
{
    if dicts.len() == 0 {
        Map::empty()
    } else {
        bv_fold_dicts(dicts.drop_last()).union_prefer_right(
            Map::new(
                |v: u16| refs_vec(dicts.last(), v),
                |v: u16| FlowDataValueV::RefDic((dicts.len() - 1) as u16),
            ),
        )
    }
}

/// The dictionary backlinks after the vectors were appended: every
/// dictionary reference inside any vector points back to `dic_len`, the
/// graph's dictionary count at that moment.
pub open spec fn bd_fold_vecs(
    bd: Map<u16, FlowDataValueV>,
    vecs: Seq<Seq<FlowDataValueV>>,
    dic_len: u16,
) -> Map<u16, FlowDataValueV>
    decreases vecs.len(),
{
    if vecs.len() == 0 {
        bd
    } else {
        bd_fold_vecs(bd, vecs.drop_last(), dic_len).union_prefer_right(
            Map::new(
                |d: u16| elem_refs_dic(vecs.last(), d),
                |d: u16| FlowDataValueV::RefDic(dic_len),
            ),
        )
    }
}

/// Appending a dictionary folds one more "idname" entry into the name index.
proof fn lemma_idnames_fold_push(
    dicts: Seq<Seq<(Seq<char>, FlowDataValueV)>>,
    d: Seq<(Seq<char>, FlowDataValueV)>,
)
    ensures
        idnames_fold(dicts.push(d)) == idnames_after(
            idnames_fold(dicts),
            d,
            dicts.len() as u16,
        ),
{
    assert(dicts.push(d).drop_last() =~= dicts);
    assert(dicts.push(d).last() == d);
}

/// Appending a dictionary folds its dictionary references into the
/// dictionary backlinks.
proof fn lemma_bd_fold_dicts_push(
    dicts: Seq<Seq<(Seq<char>, FlowDataValueV)>>,
    d: Seq<(Seq<char>, FlowDataValueV)>,
)
    ensures
        bd_fold_dicts(dicts.push(d)) == bd_fold_dicts(dicts).union_prefer_right(
            Map::new(
                |k: u16| refs_dic(d, k),
                |k: u16| FlowDataValueV::RefDic(dicts.len() as u16),
            ),
        ),
{
    assert(dicts.push(d).drop_last() =~= dicts);
    assert(dicts.push(d).last() == d);
}

/// Appending a dictionary folds its vector references into the vector
/// backlinks.
proof fn lemma_bv_fold_dicts_push(
    dicts: Seq<Seq<(Seq<char>, FlowDataValueV)>>,
    d: Seq<(Seq<char>, FlowDataValueV)>,
)
    ensures
        bv_fold_dicts(dicts.push(d)) == bv_fold_dicts(dicts).union_prefer_right(
            Map::new(
                |k: u16| refs_vec(d, k),
                |k: u16| FlowDataValueV::RefDic(dicts.len() as u16),
            ),
        ),
{
    assert(dicts.push(d).drop_last() =~= dicts);
    assert(dicts.push(d).last() == d);
}

/// Appending a vector folds its dictionary references into the dictionary
/// backlinks.
proof fn lemma_bd_fold_vecs_push(
    bd: Map<u16, FlowDataValueV>,
    vecs: Seq<Seq<FlowDataValueV>>,
    v: Seq<FlowDataValueV>,
    dic_len: u16,
)
    ensures
        bd_fold_vecs(bd, vecs.push(v), dic_len) == bd_fold_vecs(bd, vecs, dic_len).union_prefer_right(
            Map::new(|k: u16| elem_refs_dic(v, k), |k: u16| FlowDataValueV::RefDic(dic_len)),
        ),
{
    assert(vecs.push(v).drop_last() =~= vecs);
    assert(vecs.push(v).last() == v);
}

/// Splicing one element between two sequences is a push.
proof fn lemma_seq_mid<T>(a: Seq<T>, x: T, b: Seq<T>)
    ensures
        a + (seq![x] + b) == a.push(x) + b,
{
    assert(a + (seq![x] + b) =~= a.push(x) + b);
}

/// Building a dictionary pair by pair matches the insert semantics.
proof fn lemma_dic_from_pairs_push(
    ps: Seq<(Seq<char>, FlowDataValueV)>,
    p: (Seq<char>, FlowDataValueV),
)
    ensures
        dic_from_pairs(ps.push(p)) == dic_insert(dic_from_pairs(ps), p.0, p.1),
{
    assert(ps.push(p).drop_last() =~= ps);
    assert(ps.push(p).last() == p);
}

/// One successfully parsed dictionary entry moves the whole-entry-list parse
/// one step forward.
proof fn lemma_dict_entries_advance(
    data: Seq<u8>,
    h: SectionTable,
    ptr: u32,
    size: u32,
    c: int,
    pairs: Seq<(Seq<char>, FlowDataValueV)>,
    pv: (Seq<char>, FlowDataValueV),
)
    requires
        0 <= c < size,
        spec_parse_dict_entry(data, h, ptr + 2 * c) == Ok::<
            (Seq<char>, FlowDataValueV),
            FlowDataErrorV,
        >(pv),
        spec_parse_dict_entries(data, h, ptr, size, 0) == (match spec_parse_dict_entries(
            data,
            h,
            ptr,
            size,
            c,
        ) {
            Ok(rest) => Ok::<_, FlowDataErrorV>(pairs + rest),
            Err(e) => Err::<Seq<(Seq<char>, FlowDataValueV)>, _>(e),
        }),
    ensures
        spec_parse_dict_entries(data, h, ptr, size, 0) == (match spec_parse_dict_entries(
            data,
            h,
            ptr,
            size,
            c + 1,
        ) {
            Ok(rest) => Ok::<_, FlowDataErrorV>(pairs.push(pv) + rest),
            Err(e) => Err::<Seq<(Seq<char>, FlowDataValueV)>, _>(e),
        }),
{
    if let Ok(r2) = spec_parse_dict_entries(data, h, ptr, size, c + 1) {
        lemma_seq_mid(pairs, pv, r2);
    }
}

/// An entry that fails to parse fails the whole entry-list parse.
proof fn lemma_dict_entries_fail(
    data: Seq<u8>,
    h: SectionTable,
    ptr: u32,
    size: u32,
    c: int,
    pairs: Seq<(Seq<char>, FlowDataValueV)>,
    e: FlowDataErrorV,
)
    requires
        0 <= c < size,
        spec_parse_dict_entry(data, h, ptr + 2 * c) == Err::<
            (Seq<char>, FlowDataValueV),
            FlowDataErrorV,
        >(e),
        spec_parse_dict_entries(data, h, ptr, size, 0) == (match spec_parse_dict_entries(
            data,
            h,
            ptr,
            size,
            c,
        ) {
            Ok(rest) => Ok::<_, FlowDataErrorV>(pairs + rest),
            Err(e2) => Err::<Seq<(Seq<char>, FlowDataValueV)>, _>(e2),
        }),
    ensures
        spec_parse_dict_entries(data, h, ptr, size, 0) == Err::<
            Seq<(Seq<char>, FlowDataValueV)>,
            FlowDataErrorV,
        >(e),
{
}

/// One successfully parsed and appended dictionary moves the
/// whole-dictionary-list parse one step forward.
proof fn lemma_dicts_advance(
    data: Seq<u8>,
    h: SectionTable,
    i: int,
    prev: u32,
    ptr: u32,
    dicts: Seq<Seq<(Seq<char>, FlowDataValueV)>>,
    dicv: Seq<(Seq<char>, FlowDataValueV)>,
)
    requires
        0 <= i < h.dic_count,
        h.dic_section_ptr + 8 * i + 8 <= data.len(),
        prev <= ptr,
        ptr == u32_le_at(data, h.dic_section_ptr + 8 * i + 4),
        spec_parse_dict_entries(data, h, ptr, u32_le_at(data, h.dic_section_ptr + 8 * i), 0)
            matches Ok(pairs) && dicv == dic_from_pairs(pairs),
        i <= u16::MAX,
        !idname_bad(dicv),
        spec_parse_dicts(data, h, 0, 0) == (match spec_parse_dicts(data, h, i, prev) {
            Ok(rest) => Ok::<_, FlowDataErrorV>(dicts + rest),
            Err(e) => Err::<Seq<Seq<(Seq<char>, FlowDataValueV)>>, _>(e),
        }),
    ensures
        spec_parse_dicts(data, h, 0, 0) == (match spec_parse_dicts(data, h, i + 1, ptr) {
            Ok(rest) => Ok::<_, FlowDataErrorV>(dicts.push(dicv) + rest),
            Err(e) => Err::<Seq<Seq<(Seq<char>, FlowDataValueV)>>, _>(e),
        }),
{
    if let Ok(r2) = spec_parse_dicts(data, h, i + 1, ptr) {
        lemma_seq_mid(dicts, dicv, r2);
    }
}

/// One successfully parsed and appended vector moves the whole-vector-list
/// parse one step forward.
proof fn lemma_vecs_advance(
    data: Seq<u8>,
    h: SectionTable,
    i: int,
    vecs: Seq<Seq<FlowDataValueV>>,
    vecv: Seq<FlowDataValueV>,
)
    requires
        0 <= i < h.vec_count,
        h.vec_section_ptr + 8 * i + 8 <= data.len(),
        spec_parse_vec_entries(
            data,
            h,
            u32_le_at(data, h.vec_section_ptr + 8 * i + 4),
            u32_le_at(data, h.vec_section_ptr + 8 * i),
            0,
        ) == Ok::<Seq<FlowDataValueV>, FlowDataErrorV>(vecv),
        h.dic_count <= u16::MAX,
        i <= u16::MAX,
        spec_parse_vecs(data, h, 0) == (match spec_parse_vecs(data, h, i) {
            Ok(rest) => Ok::<_, FlowDataErrorV>(vecs + rest),
            Err(e) => Err::<Seq<Seq<FlowDataValueV>>, _>(e),
        }),
    ensures
        spec_parse_vecs(data, h, 0) == (match spec_parse_vecs(data, h, i + 1) {
            Ok(rest) => Ok::<_, FlowDataErrorV>(vecs.push(vecv) + rest),
            Err(e) => Err::<Seq<Seq<FlowDataValueV>>, _>(e),
        }),
{
    if let Ok(r2) = spec_parse_vecs(data, h, i + 1) {
        lemma_seq_mid(vecs, vecv, r2);
    }
}

/// One vector element that fails to parse fails the whole element-list
/// parse.
proof fn lemma_vec_entries_fail(
    data: Seq<u8>,
    h: SectionTable,
    ptr: u32,
    size: u32,
    c: int,
    vals: Seq<FlowDataValueV>,
    e: FlowDataErrorV,
)
    requires
        0 <= c < size,
        spec_parse_vec_entry(data, h, ptr + 2 * c) == Err::<FlowDataValueV, FlowDataErrorV>(e),
        spec_parse_vec_entries(data, h, ptr, size, 0) == (match spec_parse_vec_entries(
            data,
            h,
            ptr,
            size,
            c,
        ) {
            Ok(rest) => Ok::<_, FlowDataErrorV>(vals + rest),
            Err(e2) => Err::<Seq<FlowDataValueV>, _>(e2),
        }),
    ensures
        spec_parse_vec_entries(data, h, ptr, size, 0) == Err::<Seq<FlowDataValueV>, FlowDataErrorV>(
            e,
        ),
{
}

/// One successfully parsed vector element moves the element-list parse one
/// step forward.
proof fn lemma_vec_entries_advance(
    data: Seq<u8>,
    h: SectionTable,
    ptr: u32,
    size: u32,
    c: int,
    vals: Seq<FlowDataValueV>,
    valv: FlowDataValueV,
)
    requires
        0 <= c < size,
        spec_parse_vec_entry(data, h, ptr + 2 * c) == Ok::<FlowDataValueV, FlowDataErrorV>(valv),
        spec_parse_vec_entries(data, h, ptr, size, 0) == (match spec_parse_vec_entries(
            data,
            h,
            ptr,
            size,
            c,
        ) {
            Ok(rest) => Ok::<_, FlowDataErrorV>(vals + rest),
            Err(e) => Err::<Seq<FlowDataValueV>, _>(e),
        }),
    ensures
        spec_parse_vec_entries(data, h, ptr, size, 0) == (match spec_parse_vec_entries(
            data,
            h,
            ptr,
            size,
            c + 1,
        ) {
            Ok(rest) => Ok::<_, FlowDataErrorV>(vals.push(valv) + rest),
            Err(e) => Err::<Seq<FlowDataValueV>, _>(e),
        }),
{
    if let Ok(r2) = spec_parse_vec_entries(data, h, ptr, size, c + 1) {
        lemma_seq_mid(vals, valv, r2);
    }
}

/// The whole container decoded: the graph a successful decode returns, or
/// the error it fails with.
pub open spec fn spec_decode(data: Seq<u8>) -> Result<FlowDataV, FlowDataErrorV> {
    match spec_parse_header(data) {
        Err(e) => Err(e),
        Ok(h) => match spec_parse_dicts(data, h, 0, 0) {
            Err(e) => Err(e),
            Ok(dicts) => match spec_parse_vecs(data, h, 0) {
                Err(e) => Err(e),
                Ok(vecs) => Ok(
                    FlowDataV {
                        dictionaries: dicts,
                        vectors: vecs,
                        idnames: idnames_fold(dicts),
                        backlink_dictionaries: bd_fold_vecs(
                            bd_fold_dicts(dicts),
                            vecs,
                            h.dic_count as u16,
                        ),
                        backlink_vector: bv_fold_dicts(dicts),
                        unknown1: h.unknown1,
                        unknown2: h.unknown2,
                    },
                ),
            },
        },
    }
}

/// Add a string to the string table unless it is already interned.
pub open spec fn st_add(st: Seq<Seq<char>>, s: Seq<char>) -> Seq<Seq<char>> {
    if st.contains(s) {
        st
    } else {
        st.push(s)
    }
}

/// Add a value to the value table unless it is already interned.
pub open spec fn vt_add(vt: Seq<FlowDataValueV>, v: FlowDataValueV) -> Seq<FlowDataValueV> {
    if vt.contains(v) {
        vt
    } else {
        vt.push(v)
    }
}

/// Add a key/value pair to the keyval table unless it is already interned.
pub open spec fn kt_add(
    kt: Seq<(Seq<char>, FlowDataValueV)>,
    p: (Seq<char>, FlowDataValueV),
) -> Seq<(Seq<char>, FlowDataValueV)> {
    if kt.contains(p) {
        kt
    } else {
        kt.push(p)
    }
}

/// What one dictionary entry adds to the string table: its key, then the
/// content of its value when that is a string.
pub open spec fn st_add_entry(st: Seq<Seq<char>>, p: (Seq<char>, FlowDataValueV)) -> Seq<
    Seq<char>,
> {
    match p.1 {
        FlowDataValueV::Str(s) => st_add(st_add(st, p.0), s),
        _ => st_add(st, p.0),
    }
}

/// The string table after the first `j` entries of one dictionary.
pub open spec fn st_after_pairs(
    st: Seq<Seq<char>>,
    pairs: Seq<(Seq<char>, FlowDataValueV)>,
    j: int,
) -> Seq<Seq<char>>
    decreases j,
{
    if j <= 0 {
        st
    } else {
        st_add_entry(st_after_pairs(st, pairs, j - 1), pairs[j - 1])
    }
}

/// The string table after the first `i` dictionaries.
pub open spec fn st_after_dicts(
    st: Seq<Seq<char>>,
    dicts: Seq<Seq<(Seq<char>, FlowDataValueV)>>,
    i: int,
) -> Seq<Seq<char>>
    decreases i,
{
    if i <= 0 {
        st
    } else {
        st_after_pairs(
            st_after_dicts(st, dicts, i - 1),
            dicts[i - 1],
            dicts[i - 1].len() as int,
        )
    }
}

/// What one vector element adds to the string table: its content when it is
/// a string.
pub open spec fn st_add_elem(st: Seq<Seq<char>>, v: FlowDataValueV) -> Seq<Seq<char>> {
    match v {
        FlowDataValueV::Str(s) => st_add(st, s),
        _ => st,
    }
}

/// The string table after the first `j` elements of one vector.
pub open spec fn st_after_elems(st: Seq<Seq<char>>, elems: Seq<FlowDataValueV>, j: int) -> Seq<
    Seq<char>,
>
    decreases j,
{
    if j <= 0 {
        st
    } else {
        st_add_elem(st_after_elems(st, elems, j - 1), elems[j - 1])
    }
}

/// The string table after the first `i` vectors.
pub open spec fn st_after_vecs(st: Seq<Seq<char>>, vecs: Seq<Seq<FlowDataValueV>>, i: int) -> Seq<
    Seq<char>,
>
    decreases i,
{
    if i <= 0 {
        st
    } else {
        st_after_elems(st_after_vecs(st, vecs, i - 1), vecs[i - 1], vecs[i - 1].len() as int)
    }
}

/// The deduplicated string table of a graph, in first-seen order: every
/// distinct text appearing as a dictionary key or as a string value in any
/// dictionary, then in any vector.
pub open spec fn string_table(g: FlowDataV) -> Seq<Seq<char>> {
    st_after_vecs(
        st_after_dicts(Seq::empty(), g.dictionaries, g.dictionaries.len() as int),
        g.vectors,
        g.vectors.len() as int,
    )
}

/// The value table after the first `j` entries of one dictionary.
pub open spec fn vt_after_pairs(
    vt: Seq<FlowDataValueV>,
    pairs: Seq<(Seq<char>, FlowDataValueV)>,
    j: int,
) -> Seq<FlowDataValueV>
    decreases j,
{
    if j <= 0 {
        vt
    } else {
        vt_add(vt_after_pairs(vt, pairs, j - 1), pairs[j - 1].1)
    }
}

/// The value table after the first `i` dictionaries.
pub open spec fn vt_after_dicts(
    vt: Seq<FlowDataValueV>,
    dicts: Seq<Seq<(Seq<char>, FlowDataValueV)>>,
    i: int,
) -> Seq<FlowDataValueV>
    decreases i,
{
    if i <= 0 {
        vt
    } else {
        vt_after_pairs(
            vt_after_dicts(vt, dicts, i - 1),
            dicts[i - 1],
            dicts[i - 1].len() as int,
        )
    }
}

/// The value table after the first `j` elements of one vector.
pub open spec fn vt_after_elems(vt: Seq<FlowDataValueV>, elems: Seq<FlowDataValueV>, j: int) -> Seq<
    FlowDataValueV,
>
    decreases j,
{
    if j <= 0 {
        vt
    } else {
        vt_add(vt_after_elems(vt, elems, j - 1), elems[j - 1])
    }
}

/// The value table after the first `i` vectors.
pub open spec fn vt_after_vecs(vt: Seq<FlowDataValueV>, vecs: Seq<Seq<FlowDataValueV>>, i: int) -> Seq<
    FlowDataValueV,
>
    decreases i,
{
    if i <= 0 {
        vt
    } else {
        vt_after_elems(vt_after_vecs(vt, vecs, i - 1), vecs[i - 1], vecs[i - 1].len() as int)
    }
}

/// The deduplicated value table of a graph, in first-seen order: every
/// distinct value appearing in any dictionary, then in any vector.
pub open spec fn value_table(g: FlowDataV) -> Seq<FlowDataValueV> {
    vt_after_vecs(
        vt_after_dicts(Seq::empty(), g.dictionaries, g.dictionaries.len() as int),
        g.vectors,
        g.vectors.len() as int,
    )
}

/// The keyval table after the first `j` entries of one dictionary.
pub open spec fn kt_after_pairs(
    kt: Seq<(Seq<char>, FlowDataValueV)>,
    pairs: Seq<(Seq<char>, FlowDataValueV)>,
    j: int,
) -> Seq<(Seq<char>, FlowDataValueV)>
    decreases j,
{
    if j <= 0 {
        kt
    } else {
        kt_add(kt_after_pairs(kt, pairs, j - 1), pairs[j - 1])
    }
}

/// The keyval table after the first `i` dictionaries.
pub open spec fn kt_after_dicts(
    kt: Seq<(Seq<char>, FlowDataValueV)>,
    dicts: Seq<Seq<(Seq<char>, FlowDataValueV)>>,
    i: int,
) -> Seq<(Seq<char>, FlowDataValueV)>
    decreases i,
{
    if i <= 0 {
        kt
    } else {
        kt_after_pairs(
            kt_after_dicts(kt, dicts, i - 1),
            dicts[i - 1],
            dicts[i - 1].len() as int,
        )
    }
}

/// The deduplicated keyval table of a graph, in first-seen order: every
/// distinct key/value pair appearing in any dictionary.
pub open spec fn keyval_table(g: FlowDataV) -> Seq<(Seq<char>, FlowDataValueV)> {
    kt_after_dicts(Seq::empty(), g.dictionaries, g.dictionaries.len() as int)
}

/// Read the 32-bit little-endian integer at a 64-bit position.
fn ru32(data: &[u8], pos: u64) -> (r: Result<u32, FlowDataError>)
    ensures
        match r {
            Ok(v) => pos + 4 <= data@.len() && v == u32_le_at(data@, pos as int),
            Err(e) => pos + 4 > data@.len() && e@ == FlowDataErrorV::IOError,
        },
{
    if pos < data.len() as u64 && data.len() as u64 - pos >= 4 {
        crate::tool::read_u32_le(data, pos as usize)
    } else {
        Err(FlowDataError::IOError)
    }
}

/// Read the 16-bit little-endian integer at a 64-bit position.
fn ru16(data: &[u8], pos: u64) -> (r: Result<u16, FlowDataError>)
    ensures
        match r {
            Ok(v) => pos + 2 <= data@.len() && v == u16_le_at(data@, pos as int),
            Err(e) => pos + 2 > data@.len() && e@ == FlowDataErrorV::IOError,
        },
{
    if pos < data.len() as u64 && data.len() as u64 - pos >= 2 {
        crate::tool::read_u16_le(data, pos as usize)
    } else {
        Err(FlowDataError::IOError)
    }
}

/// Follow the absolute 4-byte pointer at `pos` and read the null-terminated
/// UTF-8 string there.
fn read_cstr(data: &[u8], pos: u64) -> (r: Result<String, FlowDataError>)
    ensures
        match r {
            Ok(s) => spec_read_cstr(data@, pos as int) == Ok::<Seq<char>, FlowDataErrorV>(s@),
            Err(e) => spec_read_cstr(data@, pos as int) == Err::<Seq<char>, FlowDataErrorV>(e@),
        },
{
    let sptr = match ru32(data, pos) {
        Ok(v) => v,
        Err(e) => {
            return Err(e);
        },
    };
    match crate::tool::read_string_utf8(data, sptr as usize) {
        Ok(s) => Ok(s),
        Err(e) => Err(e),
    }
}

/// Read the fixed header and the content header it points at.
fn read_header(data: &[u8]) -> (r: Result<SectionTable, FlowDataError>)
    ensures
        match r {
            Ok(h) => spec_parse_header(data@) == Ok::<SectionTable, FlowDataErrorV>(h),
            Err(e) => spec_parse_header(data@) == Err::<SectionTable, FlowDataErrorV>(e@),
        },
{
    let content_ptr = match ru32(data, 4) {
        Ok(v) => v,
        Err(e) => {
            return Err(e);
        },
    };
    let _pointer_offsets_ptr = match ru32(data, 8) {
        Ok(v) => v,
        Err(e) => {
            return Err(e);
        },
    };
    let cp = content_ptr as u64;
    let unknown1 = match ru32(data, cp) {
        Ok(v) => v,
        Err(e) => {
            return Err(e);
        },
    };
    let info_ptr = match ru32(data, cp + 4) {
        Ok(v) => v,
        Err(e) => {
            return Err(e);
        },
    };
    let dic_count = match ru32(data, cp + 8) {
        Ok(v) => v,
        Err(e) => {
            return Err(e);
        },
    };
    let dic_section_ptr = match ru32(data, cp + 12) {
        Ok(v) => v,
        Err(e) => {
            return Err(e);
        },
    };
    let vec_count = match ru32(data, cp + 16) {
        Ok(v) => v,
        Err(e) => {
            return Err(e);
        },
    };
    let vec_section_ptr = match ru32(data, cp + 20) {
        Ok(v) => v,
        Err(e) => {
            return Err(e);
        },
    };
    let strptr_section_ptr = match ru32(data, cp + 24) {
        Ok(v) => v,
        Err(e) => {
            return Err(e);
        },
    };
    let val_section_ptr = match ru32(data, cp + 28) {
        Ok(v) => v,
        Err(e) => {
            return Err(e);
        },
    };
    let keyval_section_ptr = match ru32(data, cp + 32) {
        Ok(v) => v,
        Err(e) => {
            return Err(e);
        },
    };
    let ip = info_ptr as u64;
    let unknown2 = match ru16(data, ip) {
        Ok(v) => v,
        Err(e) => {
            return Err(e);
        },
    };
    let _vector_number = match ru16(data, ip + 2) {
        Ok(v) => v,
        Err(e) => {
            return Err(e);
        },
    };
    let _first_dic = match ru32(data, ip + 4) {
        Ok(v) => v,
        Err(e) => {
            return Err(e);
        },
    };
    let _first_vec = match ru32(data, ip + 8) {
        Ok(v) => v,
        Err(e) => {
            return Err(e);
        },
    };
    if val_section_ptr > keyval_section_ptr {
        return Err(FlowDataError::NonMonotonicPointer(val_section_ptr, keyval_section_ptr));
    }
    if keyval_section_ptr > info_ptr {
        return Err(FlowDataError::NonMonotonicPointer(keyval_section_ptr, info_ptr));
    }
    let end_src: u64 = if dic_count >= 2 {
        dic_section_ptr as u64 + 12
    } else if vec_count >= 2 {
        vec_section_ptr as u64 + 12
    } else {
        ip + 12
    };
    let next_block = match ru32(data, end_src) {
        Ok(v) => v,
        Err(e) => {
            return Err(e);
        },
    };
    let direct = dic_count >= 2 || vec_count >= 2;
    let strptr_section_len: u32 = if direct && next_block >= strptr_section_ptr {
        (next_block - strptr_section_ptr) / 4
    } else if !direct && next_block >= 2 && next_block - 2 >= strptr_section_ptr {
        (next_block - 2 - strptr_section_ptr) / 4
    } else {
        0
    };
    Ok(
        SectionTable {
            unknown1,
            info_ptr,
            dic_count,
            dic_section_ptr,
            vec_count,
            vec_section_ptr,
            strptr_section_ptr,
            val_section_ptr,
            keyval_section_ptr,
            unknown2,
            val_section_len: (keyval_section_ptr - val_section_ptr) / 4,
            keyval_section_len: (info_ptr - keyval_section_ptr) / 4,
            strptr_section_len,
        },
    )
}

/// Resolve a dictionary-side value id.
fn read_dict_value(data: &[u8], h: &SectionTable, val_id: u16) -> (r: Result<
    FlowDataValue,
    FlowDataError,
>)
    ensures
        match r {
            Ok(v) => spec_parse_dict_value(data@, *h, val_id) == Ok::<
                FlowDataValueV,
                FlowDataErrorV,
            >(v@),
            Err(e) => spec_parse_dict_value(data@, *h, val_id) == Err::<
                FlowDataValueV,
                FlowDataErrorV,
            >(e@),
        },
{
    let vpos = h.val_section_ptr as u64 + 4 * val_id as u64;
    let tag = match ru16(data, vpos) {
        Ok(v) => v,
        Err(e) => {
            return Err(e);
        },
    };
    let vd = match ru16(data, vpos + 2) {
        Ok(v) => v,
        Err(e) => {
            return Err(e);
        },
    };
    if tag == 0 {
        if vd as u32 >= h.strptr_section_len {
            return Err(FlowDataError::StringReferenceTooBig(vd, h.strptr_section_len));
        }
        let spos = h.strptr_section_ptr as u64 + 4 * vd as u64;
        match read_cstr(data, spos) {
            Ok(s) => Ok(FlowDataValue::Str(s)),
            Err(e) => Err(e),
        }
    } else if tag == 1 {
        if vd as u32 >= h.dic_count {
            return Err(FlowDataError::DicReferenceTooBig(vd, h.dic_count));
        }
        Ok(FlowDataValue::RefDic(vd))
    } else if tag == 2 {
        if vd as u32 >= h.vec_count {
            return Err(FlowDataError::VecReferenceTooBig(vd, h.vec_count));
        }
        Ok(FlowDataValue::RefVec(vd))
    } else {
        Err(FlowDataError::UnrecognizedTypeForDic(tag))
    }
}

/// Parse one dictionary entry at `idpos`.
fn read_dict_entry(data: &[u8], h: &SectionTable, idpos: u64) -> (r: Result<
    (String, FlowDataValue),
    FlowDataError,
>)
    ensures
        match r {
            Ok(p) => spec_parse_dict_entry(data@, *h, idpos as int) == Ok::<
                (Seq<char>, FlowDataValueV),
                FlowDataErrorV,
            >((p.0@, p.1@)),
            Err(e) => spec_parse_dict_entry(data@, *h, idpos as int) == Err::<
                (Seq<char>, FlowDataValueV),
                FlowDataErrorV,
            >(e@),
        },
{
    let kvid = match ru16(data, idpos) {
        Ok(v) => v,
        Err(e) => {
            return Err(e);
        },
    };
    if kvid as u32 >= h.keyval_section_len {
        return Err(FlowDataError::KeyValTooBig(kvid, h.keyval_section_len));
    }
    let kpos = h.keyval_section_ptr as u64 + 4 * kvid as u64;
    let key_id = match ru16(data, kpos) {
        Ok(v) => v,
        Err(e) => {
            return Err(e);
        },
    };
    let val_id = match ru16(data, kpos + 2) {
        Ok(v) => v,
        Err(e) => {
            return Err(e);
        },
    };
    if key_id as u32 >= h.strptr_section_len {
        return Err(FlowDataError::StringReferenceTooBig(key_id, h.strptr_section_len));
    }
    if val_id as u32 >= h.val_section_len {
        return Err(FlowDataError::ValTooBig(val_id, h.val_section_len));
    }
    let key = match read_cstr(data, h.strptr_section_ptr as u64 + 4 * key_id as u64) {
        Ok(s) => s,
        Err(e) => {
            return Err(e);
        },
    };
    match read_dict_value(data, h, val_id) {
        Ok(v) => Ok((key, v)),
        Err(e) => Err(e),
    }
}

/// Resolve a vector-side value id.
fn read_vec_value(data: &[u8], h: &SectionTable, val_id: u16) -> (r: Result<
    FlowDataValue,
    FlowDataError,
>)
    ensures
        match r {
            Ok(v) => spec_parse_vec_value(data@, *h, val_id) == Ok::<
                FlowDataValueV,
                FlowDataErrorV,
            >(v@),
            Err(e) => spec_parse_vec_value(data@, *h, val_id) == Err::<
                FlowDataValueV,
                FlowDataErrorV,
            >(e@),
        },
{
    let vpos = h.val_section_ptr as u64 + 4 * val_id as u64;
    let tag = match ru16(data, vpos) {
        Ok(v) => v,
        Err(e) => {
            return Err(e);
        },
    };
    let vd = match ru16(data, vpos + 2) {
        Ok(v) => v,
        Err(e) => {
            return Err(e);
        },
    };
    if tag == 0 {
        if vd as u32 >= h.strptr_section_len {
            return Err(FlowDataError::StringReferenceTooBig(vd, h.strptr_section_len));
        }
        let spos = h.strptr_section_ptr as u64 + 4 * vd as u64;
        match read_cstr(data, spos) {
            Ok(s) => Ok(FlowDataValue::Str(s)),
            Err(e) => Err(e),
        }
    } else if tag == 1 {
        if vd as u32 >= h.dic_count {
            return Err(FlowDataError::DicReferenceTooBig(vd, h.dic_count));
        }
        Ok(FlowDataValue::RefDic(vd))
    } else {
        Err(FlowDataError::UnrecognizedTypeForVec(tag))
    }
}

/// Parse one vector element at `idpos`.
fn read_vec_entry(data: &[u8], h: &SectionTable, idpos: u64) -> (r: Result<
    FlowDataValue,
    FlowDataError,
>)
    ensures
        match r {
            Ok(v) => spec_parse_vec_entry(data@, *h, idpos as int) == Ok::<
                FlowDataValueV,
                FlowDataErrorV,
            >(v@),
            Err(e) => spec_parse_vec_entry(data@, *h, idpos as int) == Err::<
                FlowDataValueV,
                FlowDataErrorV,
            >(e@),
        },
{
    let vid = match ru16(data, idpos) {
        Ok(v) => v,
        Err(e) => {
            return Err(e);
        },
    };
    if vid as u32 >= h.val_section_len {
        return Err(FlowDataError::ValTooBig(vid, h.val_section_len));
    }
    read_vec_value(data, h, vid)
}

/// Parse the whole entry list of one dictionary and build the dictionary,
/// a later duplicate key winning.
fn read_dict_at(data: &[u8], h: &SectionTable, ptr: u32, size: u32) -> (r: Result<
    Dictionary,
    FlowDataError,
>)
    ensures
        match r {
            Ok(d) => {
                &&& spec_parse_dict_entries(data@, *h, ptr, size, 0) matches Ok(pairs)
                    && d@ == dic_from_pairs(pairs)
                &&& d.wf()
            },
            Err(e) => spec_parse_dict_entries(data@, *h, ptr, size, 0) == Err::<
                Seq<(Seq<char>, FlowDataValueV)>,
                FlowDataErrorV,
            >(e@),
        },
{
    let mut dic = Dictionary::new();
    let ghost mut pairs = Seq::<(Seq<char>, FlowDataValueV)>::empty();
    let mut c: u32 = 0;
    while c < size
        invariant
            c <= size,
            dic.wf(),
            dic@ == dic_from_pairs(pairs),
            spec_parse_dict_entries(data@, *h, ptr, size, 0) == (
            match spec_parse_dict_entries(data@, *h, ptr, size, c as int) {
                Ok(rest) => Ok::<_, FlowDataErrorV>(pairs + rest),
                Err(e) => Err::<Seq<(Seq<char>, FlowDataValueV)>, _>(e),
            }),
        decreases size - c,
    {
        let idpos = ptr as u64 + 2 * c as u64;
        let entry = match read_dict_entry(data, h, idpos) {
            Ok(p) => p,
            Err(e) => {
                proof {
                    lemma_dict_entries_fail(data@, *h, ptr, size, c as int, pairs, e@);
                }
                return Err(e);
            },
        };
        let ghost pv = (entry.0@, entry.1@);
        dic.insert(entry.0, entry.1);
        proof {
            assert(dic@ == dic_insert(dic_from_pairs(pairs), pv.0, pv.1));
            lemma_dic_from_pairs_push(pairs, pv);
            lemma_dict_entries_advance(data@, *h, ptr, size, c as int, pairs, pv);
            pairs = pairs.push(pv);
        }
        c = c + 1;
    }
    proof {
        assert(spec_parse_dict_entries(data@, *h, ptr, size, size as int) == Ok::<
            Seq<(Seq<char>, FlowDataValueV)>,
            FlowDataErrorV,
        >(Seq::empty()));
        assert(pairs + Seq::<(Seq<char>, FlowDataValueV)>::empty() =~= pairs);
    }
    Ok(dic)
}

/// Parse the whole element list of one vector.
fn read_vec_at(data: &[u8], h: &SectionTable, ptr: u32, size: u32) -> (r: Result<
    Vec<FlowDataValue>,
    FlowDataError,
>)
    ensures
        match r {
            Ok(v) => spec_parse_vec_entries(data@, *h, ptr, size, 0) == Ok::<
                Seq<FlowDataValueV>,
                FlowDataErrorV,
            >(v.deep_view()),
            Err(e) => spec_parse_vec_entries(data@, *h, ptr, size, 0) == Err::<
                Seq<FlowDataValueV>,
                FlowDataErrorV,
            >(e@),
        },
{
    let mut vec: Vec<FlowDataValue> = Vec::new();
    proof {
        assert(vec.deep_view() =~= Seq::<FlowDataValueV>::empty());
    }
    let mut c: u32 = 0;
    while c < size
        invariant
            c <= size,
            spec_parse_vec_entries(data@, *h, ptr, size, 0) == (
            match spec_parse_vec_entries(data@, *h, ptr, size, c as int) {
                Ok(rest) => Ok::<_, FlowDataErrorV>(vec.deep_view() + rest),
                Err(e) => Err::<Seq<FlowDataValueV>, _>(e),
            }),
        decreases size - c,
    {
        let idpos = ptr as u64 + 2 * c as u64;
        let val = match read_vec_entry(data, h, idpos) {
            Ok(v) => v,
            Err(e) => {
                proof {
                    lemma_vec_entries_fail(data@, *h, ptr, size, c as int, vec.deep_view(), e@);
                }
                return Err(e);
            },
        };
        let ghost vv_before = vec.deep_view();
        let ghost valv = val@;
        vec.push(val);
        proof {
            assert(vec.deep_view() =~= vv_before.push(valv));
            lemma_vec_entries_advance(data@, *h, ptr, size, c as int, vv_before, valv);
        }
        c = c + 1;
    }
    proof {
        assert(spec_parse_vec_entries(data@, *h, ptr, size, size as int) == Ok::<
            Seq<FlowDataValueV>,
            FlowDataErrorV,
        >(Seq::empty()));
        assert(vec.deep_view() + Seq::<FlowDataValueV>::empty() =~= vec.deep_view());
    }
    Ok(vec)
}

/// The total entry count of the first `i` collections, the first one
/// excluded: its entries live inline in the additional-info block, the
/// others' entry lists follow the string-pointer table.
pub open spec fn sum_lens_from1<T>(s: Seq<Seq<T>>, i: int) -> int
    decreases i,
{
    if i <= 1 {
        0
    } else {
        sum_lens_from1(s, i - 1) + s[i - 1].len()
    }
}

/// The byte length of the first `i` strings of the string pool: each
/// string's UTF-8 bytes plus its zero terminator.
pub open spec fn st_bytes_len(st: Seq<Seq<char>>, i: int) -> int
    decreases i,
{
    if i <= 0 {
        0
    } else {
        st_bytes_len(st, i - 1) + vstd::utf8::encode_utf8(st[i - 1]).len() + 1
    }
}

/// Partial entry sums grow with the index and never fall below zero.
proof fn lemma_sum_lens_mono<T>(s: Seq<Seq<T>>, i: int, j: int)
    requires
        i <= j,
    ensures
        0 <= sum_lens_from1(s, i) <= sum_lens_from1(s, j),
    decreases j,
{
    if j > 1 && i < j {
        lemma_sum_lens_mono(s, i, j - 1);
    }
    if j > 1 && i == j {
        lemma_sum_lens_mono(s, i - 1, j - 1);
    }
}

/// Partial string-pool lengths grow with the index and never fall below
/// zero.
proof fn lemma_st_bytes_mono(st: Seq<Seq<char>>, i: int, j: int)
    requires
        i <= j,
    ensures
        0 <= st_bytes_len(st, i) <= st_bytes_len(st, j),
    decreases j,
{
    if j > 0 && i < j {
        lemma_st_bytes_mono(st, i, j - 1);
    }
    if j > 0 && i == j {
        lemma_st_bytes_mono(st, i - 1, j - 1);
    }
}

/// Everything in the layout sits at or after the entry lists: a graph whose
/// dictionary entries alone pass the 32-bit range cannot fit.
proof fn lemma_overflow_bound(g: FlowDataV, i: int, l: int)
    requires
        g.vectors.len() >= 1,
        1 <= i < g.dictionaries.len(),
        l == g.dictionaries[i].len(),
    ensures
        encode_end(g) >= 2 * (sum_lens_from1(g.dictionaries, i) + l) + 52,
        sum_lens_from1(g.dictionaries, i) >= 0,
{
    assert(sum_lens_from1(g.dictionaries, i + 1) == sum_lens_from1(g.dictionaries, i) + l);
    lemma_sum_lens_mono(g.dictionaries, i + 1, g.dictionaries.len() as int);
    lemma_sum_lens_mono(g.dictionaries, 0, i);
    lemma_sum_lens_mono(g.vectors, 0, g.vectors.len() as int);
    lemma_st_bytes_mono(string_table(g), 0, string_table(g).len() as int);
}

/// The same bound through the vector entry lists.
proof fn lemma_overflow_bound_vecs(g: FlowDataV, i: int, l: int)
    requires
        g.dictionaries.len() >= 1,
        1 <= i < g.vectors.len(),
        l == g.vectors[i].len(),
    ensures
        encode_end(g) >= 2 * (sum_lens_from1(g.vectors, i) + l) + 52,
        sum_lens_from1(g.vectors, i) >= 0,
{
    assert(sum_lens_from1(g.vectors, i + 1) == sum_lens_from1(g.vectors, i) + l);
    lemma_sum_lens_mono(g.vectors, i + 1, g.vectors.len() as int);
    lemma_sum_lens_mono(g.vectors, 0, i);
    lemma_sum_lens_mono(g.dictionaries, 0, g.dictionaries.len() as int);
    lemma_st_bytes_mono(string_table(g), 0, string_table(g).len() as int);
}

/// The same bound through the string pool.
proof fn lemma_overflow_bound_strings(g: FlowDataV, k: int, l: int)
    requires
        0 <= k < string_table(g).len(),
        l == vstd::utf8::encode_utf8(string_table(g)[k]).len(),
    ensures
        encode_end(g) >= st_bytes_len(string_table(g), k) + l + 1 + 52,
        st_bytes_len(string_table(g), k) >= 0,
{
    assert(st_bytes_len(string_table(g), k + 1) == st_bytes_len(string_table(g), k) + l + 1);
    lemma_st_bytes_mono(string_table(g), k + 1, string_table(g).len() as int);
    lemma_st_bytes_mono(string_table(g), 0, k);
    lemma_sum_lens_mono(g.dictionaries, 0, g.dictionaries.len() as int);
    lemma_sum_lens_mono(g.vectors, 0, g.vectors.len() as int);
}

/// The offset of the additional-info block: right after the header, the two
/// metadata sections, the value table and the keyval table.
pub open spec fn encode_ai(g: FlowDataV) -> int {
    52 + 8 * (g.dictionaries.len() as int) + 8 * (g.vectors.len() as int) + 4 * (value_table(
        g,
    ).len() as int) + 4 * (keyval_table(g).len() as int)
}

/// The offset of the raw string bytes in an encoded container.
pub open spec fn encode_strings_off(g: FlowDataV) -> int {
    encode_ai(g) + 18 + 4 * (string_table(g).len() as int) + 2 * sum_lens_from1(
        g.dictionaries,
        g.dictionaries.len() as int,
    ) + 2 * sum_lens_from1(g.vectors, g.vectors.len() as int) + 2
}

/// The offset of the relocation footer in an encoded container: everything
/// before it has a size fixed by the graph.
pub open spec fn encode_end(g: FlowDataV) -> int {
    encode_strings_off(g) + st_bytes_len(string_table(g), string_table(g).len() as int)
}

/// Whether a graph fits the container: each interning table fits 16-bit
/// indices, the whole layout fits 32-bit offsets, and the first
/// dictionary's and vector's entry lists fit the eight inline bytes of the
/// additional-info block.
pub open spec fn encode_fits(g: FlowDataV) -> bool {
    &&& string_table(g).len() <= 65536
    &&& value_table(g).len() <= 65536
    &&& keyval_table(g).len() <= 65536
    &&& encode_end(g) <= u32::MAX
    &&& 2 * (g.dictionaries[0].len() as int) + 2 * (g.vectors[0].len() as int) <= 8
}

/// No element occurs twice.
pub open spec fn distinct<T>(s: Seq<T>) -> bool {
    forall|i: int, j: int| 0 <= i < j < s.len() ==> s[i] != s[j]
}

/// What a push does to membership.
proof fn lemma_push_contains<T>(s: Seq<T>, x: T)
    ensures
        forall|y: T| #[trigger] s.push(x).contains(y) <==> (s.contains(y) || y == x),
{
    assert forall|y: T| #[trigger] s.push(x).contains(y) implies (s.contains(y) || y == x) by {
        let w = choose|i: int| 0 <= i < s.push(x).len() && s.push(x)[i] == y;
        if w < s.len() {
            assert(s[w] == y);
        }
    }
    assert forall|y: T| (s.contains(y) || y == x) implies #[trigger] s.push(x).contains(y) by {
        if s.contains(y) {
            let w = choose|i: int| 0 <= i < s.len() && s[i] == y;
            assert(s.push(x)[w] == y);
        } else {
            assert(s.push(x)[s.len() as int] == x);
        }
    }
}

/// Pushing a fresh element keeps a sequence duplicate-free.
proof fn lemma_distinct_push<T>(s: Seq<T>, x: T)
    requires
        distinct(s),
        !s.contains(x),
    ensures
        distinct(s.push(x)),
{
    assert forall|i: int, j: int| 0 <= i < j < s.push(x).len() implies s.push(x)[i] != s.push(x)[j] by {
        if j < s.len() {
            assert(s[i] != s[j]);
        } else {
            assert(s.push(x)[j] == x);
            assert(s[i] != x);
        }
    }
}

/// The content of every interned string value is itself an interned string.
pub open spec fn st_covers_vt(st: Seq<Seq<char>>, vt: Seq<FlowDataValueV>) -> bool {
    forall|j: int| 0 <= j < vt.len() && vt[j] is Str ==> st.contains((#[trigger] vt[j])->Str_0)
}

/// The three interning tables agree: the content of every interned string
/// value is itself interned, and so are every interned pair's key and value.
pub open spec fn tables_linked(
    st: Seq<Seq<char>>,
    vt: Seq<FlowDataValueV>,
    kt: Seq<(Seq<char>, FlowDataValueV)>,
) -> bool {
    &&& st_covers_vt(st, vt)
    &&& forall|j: int|
        0 <= j < kt.len() ==> st.contains((#[trigger] kt[j]).0) && vt.contains(kt[j].1)
}

/// Whether two values hold the same content.
fn value_eq(a: &FlowDataValue, b: &FlowDataValue) -> (r: bool)
    ensures
        r == (a@ == b@),
{
    *a == *b
}

/// The position of a string in the string table, if it is interned.
fn st_find(st: &Vec<String>, s: &str) -> (r: Option<usize>)
    ensures
        match r {
            Some(i) => i < st.deep_view().len() && st.deep_view()[i as int] == s@,
            None => !st.deep_view().contains(s@),
        },
{
    let mut i: usize = 0;
    while i < st.len()
        invariant
            i <= st@.len(),
            forall|j: int| 0 <= j < i ==> st.deep_view()[j] != s@,
        decreases st@.len() - i,
    {
        if crate::tool::str_eq(st[i].as_str(), s) {
            return Some(i);
        }
        i = i + 1;
    }
    proof {
        assert forall|j: int| 0 <= j < st.deep_view().len() implies st.deep_view()[j] != s@ by {}
    }
    None
}

/// The position of a value in the value table, if it is interned.
fn vt_find(vt: &Vec<FlowDataValue>, v: &FlowDataValue) -> (r: Option<usize>)
    ensures
        match r {
            Some(i) => i < vt.deep_view().len() && vt.deep_view()[i as int] == v@,
            None => !vt.deep_view().contains(v@),
        },
{
    let mut i: usize = 0;
    while i < vt.len()
        invariant
            i <= vt@.len(),
            forall|j: int| 0 <= j < i ==> vt.deep_view()[j] != v@,
        decreases vt@.len() - i,
    {
        if value_eq(&vt[i], v) {
            return Some(i);
        }
        i = i + 1;
    }
    None
}

/// The position of a key/value pair in the keyval table, if it is interned.
fn kt_find(kt: &Vec<(String, FlowDataValue)>, key: &str, val: &FlowDataValue) -> (r: Option<usize>)
    ensures
        match r {
            Some(i) => i < kt.deep_view().len() && kt.deep_view()[i as int] == (key@, val@),
            None => !kt.deep_view().contains((key@, val@)),
        },
{
    let mut i: usize = 0;
    while i < kt.len()
        invariant
            i <= kt@.len(),
            forall|j: int| 0 <= j < i ==> kt.deep_view()[j] != (key@, val@),
        decreases kt@.len() - i,
    {
        if crate::tool::str_eq(kt[i].0.as_str(), key) && value_eq(&kt[i].1, val) {
            return Some(i);
        }
        i = i + 1;
    }
    None
}

/// Intern a string, leaving the table unchanged when it is already there.
fn st_intern(st: &mut Vec<String>, s: &String)
    ensures
        final(st).deep_view() == st_add(old(st).deep_view(), s@),
{
    proof {
        lemma_push_contains(old(st).deep_view(), s@);
    }
    if st_find(st, s.as_str()).is_none() {
        st.push(s.clone());
        proof {
            assert(final(st).deep_view() =~= old(st).deep_view().push(s@));
        }
    } else {
        proof {
            assert(old(st).deep_view().contains(s@));
        }
    }
}

/// Fold one dictionary's entries into the three interning tables.
fn tables_add_dict(
    st: &mut Vec<String>,
    vt: &mut Vec<FlowDataValue>,
    kt: &mut Vec<(String, FlowDataValue)>,
    dic: &Dictionary,
)
    requires
        distinct(old(st).deep_view()),
        distinct(old(vt).deep_view()),
        distinct(old(kt).deep_view()),
        tables_linked(old(st).deep_view(), old(vt).deep_view(), old(kt).deep_view()),
    ensures
        final(st).deep_view() == st_after_pairs(old(st).deep_view(), dic@, dic@.len() as int),
        final(vt).deep_view() == vt_after_pairs(old(vt).deep_view(), dic@, dic@.len() as int),
        final(kt).deep_view() == kt_after_pairs(old(kt).deep_view(), dic@, dic@.len() as int),
        distinct(final(st).deep_view()),
        distinct(final(vt).deep_view()),
        distinct(final(kt).deep_view()),
        tables_linked(final(st).deep_view(), final(vt).deep_view(), final(kt).deep_view()),
        forall|x: Seq<char>|
            old(st).deep_view().contains(x) ==> final(st).deep_view().contains(x),
        forall|x: FlowDataValueV|
            old(vt).deep_view().contains(x) ==> final(vt).deep_view().contains(x),
        forall|x: (Seq<char>, FlowDataValueV)|
            old(kt).deep_view().contains(x) ==> final(kt).deep_view().contains(x),
        forall|j: int| 0 <= j < dic@.len() ==> final(kt).deep_view().contains(#[trigger] dic@[j]),
{
    let mut j: usize = 0;
    while j < dic.len()
        invariant
            j <= dic@.len(),
            st.deep_view() == st_after_pairs(old(st).deep_view(), dic@, j as int),
            vt.deep_view() == vt_after_pairs(old(vt).deep_view(), dic@, j as int),
            kt.deep_view() == kt_after_pairs(old(kt).deep_view(), dic@, j as int),
            distinct(st.deep_view()),
            distinct(vt.deep_view()),
            distinct(kt.deep_view()),
            tables_linked(st.deep_view(), vt.deep_view(), kt.deep_view()),
            forall|x: Seq<char>| old(st).deep_view().contains(x) ==> st.deep_view().contains(x),
            forall|x: FlowDataValueV|
                old(vt).deep_view().contains(x) ==> vt.deep_view().contains(x),
            forall|x: (Seq<char>, FlowDataValueV)|
                old(kt).deep_view().contains(x) ==> kt.deep_view().contains(x),
            forall|k: int| 0 <= k < j ==> kt.deep_view().contains(#[trigger] dic@[k]),
        decreases dic@.len() - j,
    {
        let entry = dic.entry_at(j).unwrap();
        let ghost st_pre = st.deep_view();
        let ghost vt_pre = vt.deep_view();
        let ghost kt_pre = kt.deep_view();
        st_intern(st, &entry.0);
        match &entry.1 {
            FlowDataValue::Str(s) => {
                st_intern(st, s);
            },
            _ => {},
        }
        proof {
            assert(st.deep_view() == st_add_entry(st_pre, dic@[j as int]));
            lemma_push_contains(st_pre, dic@[j as int].0);
            if dic@[j as int].1 is Str {
                lemma_push_contains(st_add(st_pre, dic@[j as int].0), dic@[j as int].1->Str_0);
            }
            if !st_pre.contains(dic@[j as int].0) {
                lemma_distinct_push(st_pre, dic@[j as int].0);
            }
            if dic@[j as int].1 is Str {
                let sv = dic@[j as int].1->Str_0;
                let st_mid = st_add(st_pre, dic@[j as int].0);
                if !st_mid.contains(sv) {
                    lemma_distinct_push(st_mid, sv);
                }
            }
        }
        match kt_find(kt, entry.0.as_str(), &entry.1) {
            Some(_) => {},
            None => {
                kt.push((entry.0.clone(), entry.1.clone()));
                proof {
                    assert(kt.deep_view() =~= kt_pre.push(dic@[j as int]));
                    lemma_distinct_push(kt_pre, dic@[j as int]);
                    lemma_push_contains(kt_pre, dic@[j as int]);
                }
            },
        }
        match vt_find(vt, &entry.1) {
            Some(_) => {},
            None => {
                vt.push(entry.1.clone());
                proof {
                    assert(vt.deep_view() =~= vt_pre.push(dic@[j as int].1));
                    lemma_distinct_push(vt_pre, dic@[j as int].1);
                    lemma_push_contains(vt_pre, dic@[j as int].1);
                }
            },
        }
        proof {
            assert(kt.deep_view() == kt_add(kt_pre, dic@[j as int]));
            assert(vt.deep_view() == vt_add(vt_pre, dic@[j as int].1));
            lemma_push_contains(kt_pre, dic@[j as int]);
            lemma_push_contains(vt_pre, dic@[j as int].1);
        }
        j = j + 1;
    }
}

/// Fold one vector's elements into the string and value tables.
fn tables_add_vec(st: &mut Vec<String>, vt: &mut Vec<FlowDataValue>, vec: &Vec<FlowDataValue>)
    requires
        distinct(old(st).deep_view()),
        distinct(old(vt).deep_view()),
        st_covers_vt(old(st).deep_view(), old(vt).deep_view()),
    ensures
        st_covers_vt(final(st).deep_view(), final(vt).deep_view()),
        final(st).deep_view() == st_after_elems(
            old(st).deep_view(),
            vec.deep_view(),
            vec.deep_view().len() as int,
        ),
        final(vt).deep_view() == vt_after_elems(
            old(vt).deep_view(),
            vec.deep_view(),
            vec.deep_view().len() as int,
        ),
        distinct(final(st).deep_view()),
        distinct(final(vt).deep_view()),
        forall|x: Seq<char>|
            old(st).deep_view().contains(x) ==> final(st).deep_view().contains(x),
        forall|x: FlowDataValueV|
            old(vt).deep_view().contains(x) ==> final(vt).deep_view().contains(x),
        forall|j: int|
            0 <= j < vec.deep_view().len() ==> final(vt).deep_view().contains(
                #[trigger] vec.deep_view()[j],
            ),
        forall|j: int|
            0 <= j < vec.deep_view().len() && vec.deep_view()[j] is Str ==> final(st).deep_view()
                .contains((#[trigger] vec.deep_view()[j])->Str_0),
{
    let mut j: usize = 0;
    while j < vec.len()
        invariant
            j <= vec.deep_view().len(),
            vec.deep_view().len() == vec@.len(),
            st.deep_view() == st_after_elems(old(st).deep_view(), vec.deep_view(), j as int),
            vt.deep_view() == vt_after_elems(old(vt).deep_view(), vec.deep_view(), j as int),
            distinct(st.deep_view()),
            distinct(vt.deep_view()),
            st_covers_vt(st.deep_view(), vt.deep_view()),
            forall|x: Seq<char>| old(st).deep_view().contains(x) ==> st.deep_view().contains(x),
            forall|x: FlowDataValueV|
                old(vt).deep_view().contains(x) ==> vt.deep_view().contains(x),
            forall|k: int| 0 <= k < j ==> vt.deep_view().contains(#[trigger] vec.deep_view()[k]),
            forall|k: int|
                0 <= k < j && vec.deep_view()[k] is Str ==> st.deep_view().contains(
                    (#[trigger] vec.deep_view()[k])->Str_0,
                ),
        decreases vec@.len() - j,
    {
        let ghost st_pre = st.deep_view();
        let ghost vt_pre = vt.deep_view();
        match vt_find(vt, &vec[j]) {
            Some(_) => {},
            None => {
                vt.push(vec[j].clone());
                proof {
                    assert(vt.deep_view() =~= vt_pre.push(vec.deep_view()[j as int]));
                    lemma_distinct_push(vt_pre, vec.deep_view()[j as int]);
                }
            },
        }
        match &vec[j] {
            FlowDataValue::Str(s) => {
                st_intern(st, s);
                proof {
                    lemma_push_contains(st_pre, vec.deep_view()[j as int]->Str_0);
                    if !st_pre.contains(vec.deep_view()[j as int]->Str_0) {
                        lemma_distinct_push(st_pre, vec.deep_view()[j as int]->Str_0);
                    }
                }
            },
            _ => {},
        }
        proof {
            assert(st.deep_view() == st_add_elem(st_pre, vec.deep_view()[j as int]));
            assert(vt.deep_view() == vt_add(vt_pre, vec.deep_view()[j as int]));
            lemma_push_contains(vt_pre, vec.deep_view()[j as int]);
        }
        j = j + 1;
    }
}

/// Round trip of the header: any byte store carrying what [`FlowData::write`]
/// guarantees of its output for a graph `g` — the magic, the fixed content
/// pointer, and the section table the encoder lays down — parses back to a
/// header with `g`'s opaque fields and entity counts. Together with the
/// decoder's exact contract this pins the header leg of decode-after-encode.
pub proof fn lemma_header_round_trip(data: Seq<u8>, g: FlowDataV)
    requires
        g.dictionaries.len() >= 1,
        g.vectors.len() >= 1,
        encode_fits(g),
        data.len() >= encode_end(g),
        u32_le_at(data, 4) == 16,
        u32_le_at(data, 16) == g.unknown1,
        u32_le_at(data, 20) == encode_ai(g),
        u32_le_at(data, 24) == g.dictionaries.len(),
        u32_le_at(data, 28) == 52,
        u32_le_at(data, 32) == g.vectors.len(),
        u32_le_at(data, 36) == 52 + 8 * (g.dictionaries.len() as int),
        u32_le_at(data, 40) == encode_ai(g) + 18,
        u32_le_at(data, 44) == 52 + 8 * (g.dictionaries.len() as int) + 8 * (
        g.vectors.len() as int),
        u32_le_at(data, 48) == 52 + 8 * (g.dictionaries.len() as int) + 8 * (
        g.vectors.len() as int) + 4 * (value_table(g).len() as int),
        u16_le_at(data, encode_ai(g)) == g.unknown2,
    ensures
        spec_parse_header(data) matches Ok(h) && {
            &&& h.unknown1 == g.unknown1
            &&& h.unknown2 == g.unknown2
            &&& h.dic_count == g.dictionaries.len()
            &&& h.vec_count == g.vectors.len()
            &&& h.dic_section_ptr == 52
            &&& h.vec_section_ptr == 52 + 8 * (g.dictionaries.len() as int)
        },
{
    lemma_sum_lens_mono(g.dictionaries, 0, g.dictionaries.len() as int);
    lemma_sum_lens_mono(g.vectors, 0, g.vectors.len() as int);
    lemma_st_bytes_mono(string_table(g), 0, string_table(g).len() as int);
    assert(encode_ai(g) + 18 <= encode_end(g));
    assert(data.len() >= 12);
    assert(u32_le_at(data, 4) + 36 <= data.len());
    assert(u32_le_at(data, 20) + 12 <= data.len());
}

/// The position of `s` in the table `st`: unique when the table is
/// duplicate-free.
pub open spec fn st_index(st: Seq<Seq<char>>, s: Seq<char>) -> int {
    choose|i: int| 0 <= i < st.len() && st[i] == s
}

/// The position of `v` in the table `vt`: unique when the table is
/// duplicate-free.
pub open spec fn vt_index(vt: Seq<FlowDataValueV>, v: FlowDataValueV) -> int {
    choose|i: int| 0 <= i < vt.len() && vt[i] == v
}

/// The 4-byte tagged record of one interned value: tag 0 and the string's
/// table index for a string, tag 1 or 2 and the bare index for a reference.
pub open spec fn vt_record_bytes(st: Seq<Seq<char>>, v: FlowDataValueV) -> Seq<u8> {
    match v {
        FlowDataValueV::Str(s) => crate::tool::u16_le_bytes(0) + crate::tool::u16_le_bytes(
            st_index(st, s) as u16,
        ),
        FlowDataValueV::RefDic(d) => crate::tool::u16_le_bytes(1) + crate::tool::u16_le_bytes(d),
        FlowDataValueV::RefVec(w) => crate::tool::u16_le_bytes(2) + crate::tool::u16_le_bytes(w),
    }
}

/// The bytes of the value table's first `k` records.
pub open spec fn vt_bytes(st: Seq<Seq<char>>, vt: Seq<FlowDataValueV>, k: int) -> Seq<u8>
    decreases k,
{
    if k <= 0 {
        Seq::empty()
    } else {
        vt_bytes(st, vt, k - 1) + vt_record_bytes(st, vt[k - 1])
    }
}

/// The 4-byte record of one interned pair: the key's string-table index,
/// then the value's value-table index.
pub open spec fn kt_record_bytes(
    st: Seq<Seq<char>>,
    vt: Seq<FlowDataValueV>,
    p: (Seq<char>, FlowDataValueV),
) -> Seq<u8> {
    crate::tool::u16_le_bytes(st_index(st, p.0) as u16) + crate::tool::u16_le_bytes(
        vt_index(vt, p.1) as u16,
    )
}

/// The bytes of the keyval table's first `k` records.
pub open spec fn kt_bytes(
    st: Seq<Seq<char>>,
    vt: Seq<FlowDataValueV>,
    kt: Seq<(Seq<char>, FlowDataValueV)>,
    k: int,
) -> Seq<u8>
    decreases k,
{
    if k <= 0 {
        Seq::empty()
    } else {
        kt_bytes(st, vt, kt, k - 1) + kt_record_bytes(st, vt, kt[k - 1])
    }
}

/// The absolute position of dictionary `i`'s entry list: the first
/// dictionary's entries live inline in the additional-info block, the rest
/// are packed after the string-pointer table.
pub open spec fn dict_entries_ptr(g: FlowDataV, i: int) -> int {
    if i == 0 {
        encode_ai(g) + 4
    } else {
        encode_ai(g) + 18 + 4 * (string_table(g).len() as int) + 2 * sum_lens_from1(
            g.dictionaries,
            i,
        )
    }
}

/// The absolute position of vector `i`'s element list: the first vector's
/// elements live inline right after the first dictionary's entries, the
/// rest are packed after the late dictionary entry lists.
pub open spec fn vec_entries_ptr(g: FlowDataV, i: int) -> int {
    if i == 0 {
        encode_ai(g) + 4 + 2 * (g.dictionaries[0].len() as int)
    } else {
        encode_ai(g) + 18 + 4 * (string_table(g).len() as int) + 2 * sum_lens_from1(
            g.dictionaries,
            g.dictionaries.len() as int,
        ) + 2 * sum_lens_from1(g.vectors, i)
    }
}

/// The position of `p` in the keyval table: unique when the table is
/// duplicate-free.
pub open spec fn kt_index(
    kt: Seq<(Seq<char>, FlowDataValueV)>,
    p: (Seq<char>, FlowDataValueV),
) -> int {
    choose|i: int| 0 <= i < kt.len() && kt[i] == p
}

/// The bytes of one dictionary's first `j` entries: a 16-bit keyval-table
/// index per entry.
pub open spec fn entry_ids_bytes(
    kt: Seq<(Seq<char>, FlowDataValueV)>,
    dic: Seq<(Seq<char>, FlowDataValueV)>,
    j: int,
) -> Seq<u8>
    decreases j,
{
    if j <= 0 {
        Seq::empty()
    } else {
        entry_ids_bytes(kt, dic, j - 1) + crate::tool::u16_le_bytes(
            kt_index(kt, dic[j - 1]) as u16,
        )
    }
}

/// The bytes of one vector's first `j` elements: a 16-bit value-table index
/// per element.
pub open spec fn elem_ids_bytes(vt: Seq<FlowDataValueV>, elems: Seq<FlowDataValueV>, j: int) -> Seq<
    u8,
>
    decreases j,
{
    if j <= 0 {
        Seq::empty()
    } else {
        elem_ids_bytes(vt, elems, j - 1) + crate::tool::u16_le_bytes(
            vt_index(vt, elems[j - 1]) as u16,
        )
    }
}

/// The concatenated entry lists of the dictionaries after the first, up to
/// index `i`.
pub open spec fn de_bytes(g: FlowDataV, i: int) -> Seq<u8>
    decreases i,
{
    if i <= 1 {
        Seq::empty()
    } else {
        de_bytes(g, i - 1) + entry_ids_bytes(
            keyval_table(g),
            g.dictionaries[i - 1],
            g.dictionaries[i - 1].len() as int,
        )
    }
}

/// The concatenated element lists of the vectors after the first, up to
/// index `i`.
pub open spec fn ve_bytes(g: FlowDataV, i: int) -> Seq<u8>
    decreases i,
{
    if i <= 1 {
        Seq::empty()
    } else {
        ve_bytes(g, i - 1) + elem_ids_bytes(
            value_table(g),
            g.vectors[i - 1],
            g.vectors[i - 1].len() as int,
        )
    }
}

/// The 18-byte additional-info block of a graph: the opaque 16-bit field,
/// the vector count less one, the first dictionary's and vector's entry
/// lists inline, zero padding up to twelve bytes, the string-bytes offset,
/// and two zero bytes.
pub open spec fn ai_bytes(g: FlowDataV) -> Seq<u8> {
    crate::tool::u16_le_bytes(g.unknown2) + crate::tool::u16_le_bytes(
        (g.vectors.len() - 1) as u16,
    ) + entry_ids_bytes(keyval_table(g), g.dictionaries[0], g.dictionaries[0].len() as int)
        + elem_ids_bytes(value_table(g), g.vectors[0], g.vectors[0].len() as int) + Seq::new(
        (8 - 2 * g.dictionaries[0].len() - 2 * g.vectors[0].len()) as nat,
        |i: int| 0u8,
    ) + crate::tool::u32_le_bytes(encode_strings_off(g) as u32) + crate::tool::u16_le_bytes(0)
}

/// The pointer slots of the first `k` dictionary metadata records: the
/// second word of each record.
pub open spec fn dm_slots(k: int) -> Seq<u32>
    decreases k,
{
    if k <= 0 {
        Seq::empty()
    } else {
        dm_slots(k - 1).push((52 + 8 * (k - 1) + 4) as u32)
    }
}

/// The pointer slots of the first `k` vector metadata records, the section
/// starting at `base`.
pub open spec fn vm_slots(base: int, k: int) -> Seq<u32>
    decreases k,
{
    if k <= 0 {
        Seq::empty()
    } else {
        vm_slots(base, k - 1).push((base + 8 * (k - 1) + 4) as u32)
    }
}

/// The first `k` slots of the string-pointer table, starting at `base`.
pub open spec fn sp_slots(base: int, k: int) -> Seq<u32>
    decreases k,
{
    if k <= 0 {
        Seq::empty()
    } else {
        sp_slots(base, k - 1).push((base + 4 * (k - 1)) as u32)
    }
}

/// Every pointer slot of a container for `g`, in the order the slots are
/// written: the eight back-patched header fields, the dictionary metadata
/// pointers, the vector metadata pointers, and the string-pointer table.
pub open spec fn ptr_slots(g: FlowDataV) -> Seq<u32> {
    seq![4u32, 8u32, 20u32, 28u32, 36u32, 40u32, 44u32, 48u32] + dm_slots(
        g.dictionaries.len() as int,
    ) + vm_slots(52 + 8 * (g.dictionaries.len() as int), g.vectors.len() as int) + sp_slots(
        encode_ai(g) + 18,
        string_table(g).len() as int,
    )
}

/// The bytes of the first `k` string-pointer slots: each one the absolute
/// offset of its string's bytes, the strings packed from `sd` on.
pub open spec fn sp_bytes(stv: Seq<Seq<char>>, sd: int, k: int) -> Seq<u8>
    decreases k,
{
    if k <= 0 {
        Seq::empty()
    } else {
        sp_bytes(stv, sd, k - 1) + crate::tool::u32_le_bytes(
            (sd + st_bytes_len(stv, k - 1)) as u32,
        )
    }
}

/// The bytes of the first `k` pooled strings: each one's UTF-8 bytes and a
/// zero terminator.
pub open spec fn strings_bytes(stv: Seq<Seq<char>>, k: int) -> Seq<u8>
    decreases k,
{
    if k <= 0 {
        Seq::empty()
    } else {
        strings_bytes(stv, k - 1) + vstd::utf8::encode_utf8(stv[k - 1]) + seq![0u8]
    }
}

/// The bytes of the first `k` dictionary metadata records: each one the
/// entry count then the absolute entry-list pointer.
pub open spec fn dm_bytes(g: FlowDataV, k: int) -> Seq<u8>
    decreases k,
{
    if k <= 0 {
        Seq::empty()
    } else {
        dm_bytes(g, k - 1) + crate::tool::u32_le_bytes(g.dictionaries[k - 1].len() as u32)
            + crate::tool::u32_le_bytes(dict_entries_ptr(g, k - 1) as u32)
    }
}

/// The bytes of the first `k` vector metadata records.
pub open spec fn vm_bytes(g: FlowDataV, k: int) -> Seq<u8>
    decreases k,
{
    if k <= 0 {
        Seq::empty()
    } else {
        vm_bytes(g, k - 1) + crate::tool::u32_le_bytes(g.vectors[k - 1].len() as u32)
            + crate::tool::u32_le_bytes(vec_entries_ptr(g, k - 1) as u32)
    }
}

/// The dictionary metadata bytes hold each record at its own offset.
proof fn lemma_dm_bytes_record(g: FlowDataV, i: int, j: int)
    requires
        0 <= i < j,
    ensures
        dm_bytes(g, j).len() == 8 * j,
        dm_bytes(g, j).subrange(8 * i, 8 * i + 4) == crate::tool::u32_le_bytes(
            g.dictionaries[i].len() as u32,
        ),
        dm_bytes(g, j).subrange(8 * i + 4, 8 * i + 8) == crate::tool::u32_le_bytes(
            dict_entries_ptr(g, i) as u32,
        ),
    decreases j,
{
    if j == i + 1 {
        if i > 0 {
            lemma_dm_bytes_record(g, i - 1, i);
        }
        assert(dm_bytes(g, j).subrange(8 * i, 8 * i + 4) =~= crate::tool::u32_le_bytes(
            g.dictionaries[i].len() as u32,
        ));
        assert(dm_bytes(g, j).subrange(8 * i + 4, 8 * i + 8) =~= crate::tool::u32_le_bytes(
            dict_entries_ptr(g, i) as u32,
        ));
    } else {
        lemma_dm_bytes_record(g, i, j - 1);
        assert(dm_bytes(g, j).subrange(8 * i, 8 * i + 4) =~= dm_bytes(g, j - 1).subrange(
            8 * i,
            8 * i + 4,
        ));
        assert(dm_bytes(g, j).subrange(8 * i + 4, 8 * i + 8) =~= dm_bytes(g, j - 1).subrange(
            8 * i + 4,
            8 * i + 8,
        ));
    }
}

/// The vector metadata bytes hold each record at its own offset.
proof fn lemma_vm_bytes_record(g: FlowDataV, i: int, j: int)
    requires
        0 <= i < j,
    ensures
        vm_bytes(g, j).len() == 8 * j,
        vm_bytes(g, j).subrange(8 * i, 8 * i + 4) == crate::tool::u32_le_bytes(
            g.vectors[i].len() as u32,
        ),
        vm_bytes(g, j).subrange(8 * i + 4, 8 * i + 8) == crate::tool::u32_le_bytes(
            vec_entries_ptr(g, i) as u32,
        ),
    decreases j,
{
    if j == i + 1 {
        if i > 0 {
            lemma_vm_bytes_record(g, i - 1, i);
        }
        assert(vm_bytes(g, j).subrange(8 * i, 8 * i + 4) =~= crate::tool::u32_le_bytes(
            g.vectors[i].len() as u32,
        ));
        assert(vm_bytes(g, j).subrange(8 * i + 4, 8 * i + 8) =~= crate::tool::u32_le_bytes(
            vec_entries_ptr(g, i) as u32,
        ));
    } else {
        lemma_vm_bytes_record(g, i, j - 1);
        assert(vm_bytes(g, j).subrange(8 * i, 8 * i + 4) =~= vm_bytes(g, j - 1).subrange(
            8 * i,
            8 * i + 4,
        ));
        assert(vm_bytes(g, j).subrange(8 * i + 4, 8 * i + 8) =~= vm_bytes(g, j - 1).subrange(
            8 * i + 4,
            8 * i + 8,
        ));
    }
}

/// A collection after the first never outgrows the 32-bit field its count is
/// written to, in a graph that fits the container.
proof fn lemma_entry_count_fits(g: FlowDataV, i: int)
    requires
        g.dictionaries.len() >= 1,
        g.vectors.len() >= 1,
        encode_fits(g),
        0 <= i,
    ensures
        i < g.dictionaries.len() ==> g.dictionaries[i].len() <= u32::MAX,
        i < g.vectors.len() ==> g.vectors[i].len() <= u32::MAX,
        i < g.dictionaries.len() ==> 0 <= dict_entries_ptr(g, i) <= u32::MAX,
        i < g.vectors.len() ==> 0 <= vec_entries_ptr(g, i) <= u32::MAX,
{
    let dn = g.dictionaries.len() as int;
    let vn = g.vectors.len() as int;
    lemma_sum_lens_mono(g.dictionaries, 0, dn);
    lemma_sum_lens_mono(g.vectors, 0, vn);
    lemma_sum_lens_mono(g.dictionaries, 0, i);
    lemma_sum_lens_mono(g.vectors, 0, i);
    lemma_st_bytes_mono(string_table(g), 0, string_table(g).len() as int);
    if 1 <= i < dn {
        lemma_sum_lens_mono(g.dictionaries, i + 1, dn);
        assert(sum_lens_from1(g.dictionaries, i + 1) == sum_lens_from1(g.dictionaries, i)
            + g.dictionaries[i].len());
    }
    if 1 <= i < vn {
        lemma_sum_lens_mono(g.vectors, i + 1, vn);
        assert(sum_lens_from1(g.vectors, i + 1) == sum_lens_from1(g.vectors, i)
            + g.vectors[i].len());
    }
    if i < dn {
        lemma_sum_lens_mono(g.dictionaries, i, dn);
    }
    if i < vn {
        lemma_sum_lens_mono(g.vectors, i, vn);
    }
}

/// Every entity count and entry-list position fits its 32-bit field, in a
/// graph that fits the container.
proof fn lemma_counts_fit_all(g: FlowDataV)
    requires
        g.dictionaries.len() >= 1,
        g.vectors.len() >= 1,
        encode_fits(g),
    ensures
        forall|i: int|
            0 <= i < g.dictionaries.len() ==> (#[trigger] g.dictionaries[i]).len() <= u32::MAX
                && 0 <= dict_entries_ptr(g, i) <= u32::MAX,
        forall|i: int|
            0 <= i < g.vectors.len() ==> (#[trigger] g.vectors[i]).len() <= u32::MAX && 0
                <= vec_entries_ptr(g, i) <= u32::MAX,
{
    assert forall|i: int|
        0 <= i < g.dictionaries.len() implies (#[trigger] g.dictionaries[i]).len() <= u32::MAX
        && 0 <= dict_entries_ptr(g, i) <= u32::MAX by {
        lemma_entry_count_fits(g, i);
    }
    assert forall|i: int|
        0 <= i < g.vectors.len() implies (#[trigger] g.vectors[i]).len() <= u32::MAX && 0
        <= vec_entries_ptr(g, i) <= u32::MAX by {
        lemma_entry_count_fits(g, i);
    }
}

/// The dictionary half of the metadata round trip.
#[verifier::rlimit(100)]
proof fn lemma_metadata_dicts(data: Seq<u8>, g: FlowDataV)
    requires
        g.dictionaries.len() >= 1,
        g.vectors.len() >= 1,
        encode_fits(g),
        data.len() >= encode_end(g),
        data.subrange(52, 52 + 8 * (g.dictionaries.len() as int)) == dm_bytes(
            g,
            g.dictionaries.len() as int,
        ),
    ensures
        forall|i: int|
            0 <= i < g.dictionaries.len() ==> u32_le_at(data, 52 + 8 * i) == (
            #[trigger] g.dictionaries[i]).len() && u32_le_at(data, 52 + 8 * i + 4)
                == dict_entries_ptr(g, i),
{
    let dn = g.dictionaries.len() as int;
    lemma_sum_lens_mono(g.dictionaries, 0, dn);
    lemma_sum_lens_mono(g.vectors, 0, g.vectors.len() as int);
    lemma_st_bytes_mono(string_table(g), 0, string_table(g).len() as int);
    lemma_dm_bytes_record(g, 0, dn);
    lemma_counts_fit_all(g);
    crate::tool::lemma_subrange_at(dm_bytes(g, dn), data, 52);
    assert forall|i: int|
        0 <= i < dn implies u32_le_at(data, 52 + 8 * i) == (#[trigger] g.dictionaries[i]).len()
        && u32_le_at(data, 52 + 8 * i + 4) == dict_entries_ptr(g, i) by {
        lemma_dm_bytes_record(g, i, dn);
        assert(data.subrange(52 + 8 * i, 52 + 8 * i + 4) == dm_bytes(g, dn).subrange(
            8 * i,
            8 * i + 4,
        ));
        crate::tool::lemma_u32_le_at_bytes(data, 52 + 8 * i, g.dictionaries[i].len() as u32);
        assert(data.subrange(52 + 8 * i + 4, 52 + 8 * i + 8) == dm_bytes(g, dn).subrange(
            8 * i + 4,
            8 * i + 8,
        ));
        crate::tool::lemma_u32_le_at_bytes(data, 52 + 8 * i + 4, dict_entries_ptr(g, i) as u32);
    }
}

/// The vector half of the metadata round trip.
#[verifier::rlimit(100)]
proof fn lemma_metadata_vecs(data: Seq<u8>, g: FlowDataV)
    requires
        g.dictionaries.len() >= 1,
        g.vectors.len() >= 1,
        encode_fits(g),
        data.len() >= encode_end(g),
        data.subrange(
            52 + 8 * (g.dictionaries.len() as int),
            52 + 8 * (g.dictionaries.len() as int) + 8 * (g.vectors.len() as int),
        ) == vm_bytes(g, g.vectors.len() as int),
    ensures
        forall|i: int|
            0 <= i < g.vectors.len() ==> u32_le_at(
                data,
                52 + 8 * (g.dictionaries.len() as int) + 8 * i,
            ) == (#[trigger] g.vectors[i]).len() && u32_le_at(
                data,
                52 + 8 * (g.dictionaries.len() as int) + 8 * i + 4,
            ) == vec_entries_ptr(g, i),
{
    let dn = g.dictionaries.len() as int;
    let vn = g.vectors.len() as int;
    lemma_sum_lens_mono(g.dictionaries, 0, dn);
    lemma_sum_lens_mono(g.vectors, 0, vn);
    lemma_st_bytes_mono(string_table(g), 0, string_table(g).len() as int);
    lemma_vm_bytes_record(g, 0, vn);
    lemma_counts_fit_all(g);
    crate::tool::lemma_subrange_at(vm_bytes(g, vn), data, 52 + 8 * dn);
    assert forall|i: int|
        0 <= i < vn implies u32_le_at(data, 52 + 8 * dn + 8 * i) == (
    #[trigger] g.vectors[i]).len() && u32_le_at(data, 52 + 8 * dn + 8 * i + 4) == vec_entries_ptr(
        g,
        i,
    ) by {
        lemma_vm_bytes_record(g, i, vn);
        assert(data.subrange(52 + 8 * dn + 8 * i, 52 + 8 * dn + 8 * i + 4) == vm_bytes(
            g,
            vn,
        ).subrange(8 * i, 8 * i + 4));
        crate::tool::lemma_u32_le_at_bytes(data, 52 + 8 * dn + 8 * i, g.vectors[i].len() as u32);
        assert(data.subrange(52 + 8 * dn + 8 * i + 4, 52 + 8 * dn + 8 * i + 8) == vm_bytes(
            g,
            vn,
        ).subrange(8 * i + 4, 8 * i + 8));
        crate::tool::lemma_u32_le_at_bytes(
            data,
            52 + 8 * dn + 8 * i + 4,
            vec_entries_ptr(g, i) as u32,
        );
    }
}

/// Round trip of the metadata: in any byte store carrying what the encoder
/// guarantees, every dictionary and vector metadata record reads back as
/// exactly the entity's entry count and the layout position of its entry
/// list — the counts and pointers the decoder's entity loops consume.
pub proof fn lemma_metadata_round_trip(data: Seq<u8>, g: FlowDataV)
    requires
        g.dictionaries.len() >= 1,
        g.vectors.len() >= 1,
        encode_fits(g),
        data.len() >= encode_end(g),
        data.subrange(52, 52 + 8 * (g.dictionaries.len() as int)) == dm_bytes(
            g,
            g.dictionaries.len() as int,
        ),
        data.subrange(
            52 + 8 * (g.dictionaries.len() as int),
            52 + 8 * (g.dictionaries.len() as int) + 8 * (g.vectors.len() as int),
        ) == vm_bytes(g, g.vectors.len() as int),
    ensures
        forall|i: int|
            0 <= i < g.dictionaries.len() ==> u32_le_at(data, 52 + 8 * i) == (
            #[trigger] g.dictionaries[i]).len() && u32_le_at(data, 52 + 8 * i + 4)
                == dict_entries_ptr(g, i),
        forall|i: int|
            0 <= i < g.vectors.len() ==> u32_le_at(
                data,
                52 + 8 * (g.dictionaries.len() as int) + 8 * i,
            ) == (#[trigger] g.vectors[i]).len() && u32_le_at(
                data,
                52 + 8 * (g.dictionaries.len() as int) + 8 * i + 4,
            ) == vec_entries_ptr(g, i),
{
    lemma_metadata_dicts(data, g);
    lemma_metadata_vecs(data, g);
}

/// Relies on `pmd_sir0::write_sir0_footer`: for a non-decreasing offset list
/// it appends exactly the delta/base-128 footer bytes, a zero delta
/// contributing nothing, and returns Ok; a decreasing pair is refused with
/// its NotSorted error.
#[verifier::external_body]
fn sir0_footer(file: &mut Vec<u8>, list: &[u32]) -> (r: Result<(), pmd_sir0::Sir0WriteFooterError>)
    ensures
        crate::tool::ascending(list@) ==> r is Ok,
        r is Ok ==> final(file)@ == old(file)@ + crate::tool::footer_bytes_skip(list@),
{
    pmd_sir0::write_sir0_footer(file, list)
}

/// Emit the value table: one 4-byte tagged record per interned value, a
/// string value's payload being its string-table index.
fn emit_value_table(st: &Vec<String>, vt: &Vec<FlowDataValue>) -> (r: Vec<u8>)
    requires
        st_covers_vt(st.deep_view(), vt.deep_view()),
        st.deep_view().len() <= 65536,
        distinct(st.deep_view()),
    ensures
        r@.len() == 4 * vt.deep_view().len(),
        r@ == vt_bytes(st.deep_view(), vt.deep_view(), vt.deep_view().len() as int),
{
    let ghost stv = st.deep_view();
    let ghost vtv = vt.deep_view();
    let mut out: Vec<u8> = Vec::new();
    let mut k: usize = 0;
    while k < vt.len()
        invariant
            stv == st.deep_view(),
            vtv == vt.deep_view(),
            st_covers_vt(stv, vtv),
            stv.len() <= 65536,
            distinct(stv),
            k <= vtv.len(),
            vtv.len() == vt@.len(),
            out@.len() == 4 * k,
            out@ == vt_bytes(stv, vtv, k as int),
        decreases vt@.len() - k,
    {
        let ghost pre = out@;
        match &vt[k] {
            FlowDataValue::Str(s) => {
                crate::tool::push_u16_le(&mut out, 0);
                proof {
                    assert(vtv[k as int] == vt@[k as int]@);
                    assert(stv.contains(s@));
                }
                match st_find(st, s.as_str()) {
                    Some(si) => {
                        crate::tool::push_u16_le(&mut out, si as u16);
                        proof {
                            let ci = st_index(stv, s@);
                            assert(0 <= ci < stv.len() && stv[ci] == s@);
                            assert(ci == si);
                            assert(out@ =~= pre + vt_record_bytes(stv, vtv[k as int]));
                        }
                    },
                    None => {
                        assert(false);
                    },
                }
            },
            FlowDataValue::RefDic(d) => {
                crate::tool::push_u16_le(&mut out, 1);
                crate::tool::push_u16_le(&mut out, *d);
                proof {
                    assert(vtv[k as int] == vt@[k as int]@);
                    assert(out@ =~= pre + vt_record_bytes(stv, vtv[k as int]));
                }
            },
            FlowDataValue::RefVec(v) => {
                crate::tool::push_u16_le(&mut out, 2);
                crate::tool::push_u16_le(&mut out, *v);
                proof {
                    assert(vtv[k as int] == vt@[k as int]@);
                    assert(out@ =~= pre + vt_record_bytes(stv, vtv[k as int]));
                }
            },
        }
        k = k + 1;
    }
    out
}

/// Emit the keyval table: one 4-byte record per interned pair, the key's
/// string-table index then the value's value-table index.
fn emit_keyval_table(
    st: &Vec<String>,
    vt: &Vec<FlowDataValue>,
    kt: &Vec<(String, FlowDataValue)>,
) -> (r: Vec<u8>)
    requires
        tables_linked(st.deep_view(), vt.deep_view(), kt.deep_view()),
        st.deep_view().len() <= 65536,
        vt.deep_view().len() <= 65536,
        distinct(st.deep_view()),
        distinct(vt.deep_view()),
    ensures
        r@.len() == 4 * kt.deep_view().len(),
        r@ == kt_bytes(
            st.deep_view(),
            vt.deep_view(),
            kt.deep_view(),
            kt.deep_view().len() as int,
        ),
{
    let ghost stv = st.deep_view();
    let ghost vtv = vt.deep_view();
    let ghost ktv = kt.deep_view();
    let mut out: Vec<u8> = Vec::new();
    let mut k: usize = 0;
    while k < kt.len()
        invariant
            stv == st.deep_view(),
            vtv == vt.deep_view(),
            ktv == kt.deep_view(),
            tables_linked(stv, vtv, ktv),
            stv.len() <= 65536,
            vtv.len() <= 65536,
            distinct(stv),
            distinct(vtv),
            k <= ktv.len(),
            ktv.len() == kt@.len(),
            out@.len() == 4 * k,
            out@ == kt_bytes(stv, vtv, ktv, k as int),
        decreases kt@.len() - k,
    {
        let ghost pre = out@;
        proof {
            assert(ktv[k as int] == (kt@[k as int].0@, kt@[k as int].1@));
            assert(stv.contains(kt@[k as int].0@));
            assert(vtv.contains(kt@[k as int].1@));
        }
        match st_find(st, kt[k].0.as_str()) {
            Some(si) => {
                crate::tool::push_u16_le(&mut out, si as u16);
                proof {
                    let ci = st_index(stv, ktv[k as int].0);
                    assert(0 <= ci < stv.len() && stv[ci] == ktv[k as int].0);
                    assert(ci == si);
                }
            },
            None => {
                assert(false);
            },
        }
        match vt_find(vt, &kt[k].1) {
            Some(vi) => {
                crate::tool::push_u16_le(&mut out, vi as u16);
                proof {
                    let ci = vt_index(vtv, ktv[k as int].1);
                    assert(0 <= ci < vtv.len() && vtv[ci] == ktv[k as int].1);
                    assert(ci == vi);
                    assert(out@ =~= pre + kt_record_bytes(stv, vtv, ktv[k as int]));
                }
            },
            None => {
                assert(false);
            },
        }
        k = k + 1;
    }
    out
}

/// Emit one dictionary's entry list: a 16-bit keyval-table index per entry,
/// in the dictionary's own order.
fn emit_dict_entries(kt: &Vec<(String, FlowDataValue)>, dic: &Dictionary) -> (r: Vec<u8>)
    requires
        kt.deep_view().len() <= 65536,
        distinct(kt.deep_view()),
        forall|j: int| 0 <= j < dic@.len() ==> kt.deep_view().contains(#[trigger] dic@[j]),
    ensures
        r@.len() == 2 * dic@.len(),
        r@ == entry_ids_bytes(kt.deep_view(), dic@, dic@.len() as int),
{
    let ghost ktv = kt.deep_view();
    let mut out: Vec<u8> = Vec::new();
    let mut j: usize = 0;
    while j < dic.len()
        invariant
            ktv == kt.deep_view(),
            ktv.len() <= 65536,
            distinct(ktv),
            forall|x: int| 0 <= x < dic@.len() ==> ktv.contains(#[trigger] dic@[x]),
            j <= dic@.len(),
            out@.len() == 2 * j,
            out@ == entry_ids_bytes(ktv, dic@, j as int),
        decreases dic@.len() - j,
    {
        let entry = dic.entry_at(j).unwrap();
        proof {
            assert(ktv.contains(dic@[j as int]));
            assert(dic@[j as int] == (entry.0@, entry.1@));
        }
        let ghost pre = out@;
        match kt_find(kt, entry.0.as_str(), &entry.1) {
            Some(ki) => {
                crate::tool::push_u16_le(&mut out, ki as u16);
                proof {
                    let ci = kt_index(ktv, dic@[j as int]);
                    assert(0 <= ci < ktv.len() && ktv[ci] == dic@[j as int]);
                    assert(ci == ki);
                    assert(out@ =~= pre + crate::tool::u16_le_bytes(
                        kt_index(ktv, dic@[j as int]) as u16,
                    ));
                }
            },
            None => {
                assert(false);
            },
        }
        j = j + 1;
    }
    out
}

/// Emit one vector's element list: a 16-bit value-table index per element,
/// in order.
fn emit_vec_entries(vt: &Vec<FlowDataValue>, vec: &Vec<FlowDataValue>) -> (r: Vec<u8>)
    requires
        vt.deep_view().len() <= 65536,
        distinct(vt.deep_view()),
        forall|j: int|
            0 <= j < vec.deep_view().len() ==> vt.deep_view().contains(
                #[trigger] vec.deep_view()[j],
            ),
    ensures
        r@.len() == 2 * vec.deep_view().len(),
        r@ == elem_ids_bytes(vt.deep_view(), vec.deep_view(), vec.deep_view().len() as int),
{
    let ghost vtv = vt.deep_view();
    let ghost ev = vec.deep_view();
    let mut out: Vec<u8> = Vec::new();
    let mut j: usize = 0;
    while j < vec.len()
        invariant
            vtv == vt.deep_view(),
            ev == vec.deep_view(),
            vtv.len() <= 65536,
            distinct(vtv),
            forall|x: int| 0 <= x < ev.len() ==> vtv.contains(#[trigger] ev[x]),
            j <= ev.len(),
            ev.len() == vec@.len(),
            out@.len() == 2 * j,
            out@ == elem_ids_bytes(vtv, ev, j as int),
        decreases vec@.len() - j,
    {
        proof {
            assert(ev[j as int] == vec@[j as int]@);
            assert(vtv.contains(ev[j as int]));
        }
        let ghost pre = out@;
        match vt_find(vt, &vec[j]) {
            Some(vi) => {
                crate::tool::push_u16_le(&mut out, vi as u16);
                proof {
                    let ci = vt_index(vtv, ev[j as int]);
                    assert(0 <= ci < vtv.len() && vtv[ci] == ev[j as int]);
                    assert(ci == vi);
                    assert(out@ =~= pre + crate::tool::u16_le_bytes(
                        vt_index(vtv, ev[j as int]) as u16,
                    ));
                }
            },
            None => {
                assert(false);
            },
        }
        j = j + 1;
    }
    out
}

/// Emit the raw string bytes: each interned string's UTF-8 bytes followed by
/// a zero terminator, in table order.
fn emit_strings(st: &Vec<String>) -> (r: Vec<u8>)
    ensures
        r@.len() == st_bytes_len(st.deep_view(), st.deep_view().len() as int),
        r@ == strings_bytes(st.deep_view(), st.deep_view().len() as int),
{
    let ghost stv = st.deep_view();
    let mut out: Vec<u8> = Vec::new();
    let mut k: usize = 0;
    while k < st.len()
        invariant
            stv == st.deep_view(),
            k <= stv.len(),
            stv.len() == st@.len(),
            out@.len() == st_bytes_len(stv, k as int),
            out@ == strings_bytes(stv, k as int),
        decreases st@.len() - k,
    {
        let ghost pre = out@;
        out.extend_from_slice(st[k].as_str().as_bytes());
        out.push(0);
        proof {
            assert(stv[k as int] == st@[k as int]@);
            assert(out@ =~= pre + vstd::utf8::encode_utf8(stv[k as int]) + seq![0u8]);
        }
        k = k + 1;
    }
    out
}

/// Emit the 52-byte header: the magic, the fixed content pointer at 16, the
/// footer pointer, a reserved zero field, and the section table.
#[verifier::rlimit(100)]
fn emit_header(
    end32: u32,
    unknown1: u32,
    ai32: u32,
    d32: u32,
    v32: u32,
    vm32: u32,
    sp32: u32,
    val32: u32,
    kv32: u32,
) -> (r: Vec<u8>)
    ensures
        r@.len() == 52,
        r@.subrange(0, 4) == seq![0x53u8, 0x49u8, 0x52u8, 0x30u8],
        r@.subrange(4, 8) == crate::tool::u32_le_bytes(16),
        r@.subrange(8, 12) == crate::tool::u32_le_bytes(end32),
        r@.subrange(12, 16) == crate::tool::u32_le_bytes(0),
        r@.subrange(16, 20) == crate::tool::u32_le_bytes(unknown1),
        r@.subrange(20, 24) == crate::tool::u32_le_bytes(ai32),
        r@.subrange(24, 28) == crate::tool::u32_le_bytes(d32),
        r@.subrange(28, 32) == crate::tool::u32_le_bytes(52),
        r@.subrange(32, 36) == crate::tool::u32_le_bytes(v32),
        r@.subrange(36, 40) == crate::tool::u32_le_bytes(vm32),
        r@.subrange(40, 44) == crate::tool::u32_le_bytes(sp32),
        r@.subrange(44, 48) == crate::tool::u32_le_bytes(val32),
        r@.subrange(48, 52) == crate::tool::u32_le_bytes(kv32),
{
    let mut out: Vec<u8> = Vec::new();
    out.push(0x53);
    out.push(0x49);
    out.push(0x52);
    out.push(0x30);
    crate::tool::push_u32_le(&mut out, 16);
    crate::tool::push_u32_le(&mut out, end32);
    crate::tool::push_u32_le(&mut out, 0);
    crate::tool::push_u32_le(&mut out, unknown1);
    crate::tool::push_u32_le(&mut out, ai32);
    crate::tool::push_u32_le(&mut out, d32);
    crate::tool::push_u32_le(&mut out, 52);
    crate::tool::push_u32_le(&mut out, v32);
    crate::tool::push_u32_le(&mut out, vm32);
    crate::tool::push_u32_le(&mut out, sp32);
    crate::tool::push_u32_le(&mut out, val32);
    crate::tool::push_u32_le(&mut out, kv32);
    proof {
        assert(out@.subrange(0, 4) =~= seq![0x53u8, 0x49u8, 0x52u8, 0x30u8]);
        assert(out@.subrange(4, 8) =~= crate::tool::u32_le_bytes(16));
        assert(out@.subrange(8, 12) =~= crate::tool::u32_le_bytes(end32));
        assert(out@.subrange(12, 16) =~= crate::tool::u32_le_bytes(0));
        assert(out@.subrange(16, 20) =~= crate::tool::u32_le_bytes(unknown1));
        assert(out@.subrange(20, 24) =~= crate::tool::u32_le_bytes(ai32));
        assert(out@.subrange(24, 28) =~= crate::tool::u32_le_bytes(d32));
        assert(out@.subrange(28, 32) =~= crate::tool::u32_le_bytes(52));
        assert(out@.subrange(32, 36) =~= crate::tool::u32_le_bytes(v32));
        assert(out@.subrange(36, 40) =~= crate::tool::u32_le_bytes(vm32));
        assert(out@.subrange(40, 44) =~= crate::tool::u32_le_bytes(sp32));
        assert(out@.subrange(44, 48) =~= crate::tool::u32_le_bytes(val32));
        assert(out@.subrange(48, 52) =~= crate::tool::u32_le_bytes(kv32));
    }
    out
}

/// Emit the 18-byte additional-info block: the opaque 16-bit header field,
/// the vector count less one, the first dictionary's and vector's entry
/// lists inline, zero padding, the string-bytes offset, and two zero bytes.
fn emit_ai_block(
    unknown2: u16,
    vbase: u16,
    kt: &Vec<(String, FlowDataValue)>,
    dic0: &Dictionary,
    vt: &Vec<FlowDataValue>,
    vec0: &Vec<FlowDataValue>,
    sd32: u32,
) -> (r: Vec<u8>)
    requires
        kt.deep_view().len() <= 65536,
        vt.deep_view().len() <= 65536,
        distinct(kt.deep_view()),
        distinct(vt.deep_view()),
        forall|j: int| 0 <= j < dic0@.len() ==> kt.deep_view().contains(#[trigger] dic0@[j]),
        forall|j: int|
            0 <= j < vec0.deep_view().len() ==> vt.deep_view().contains(
                #[trigger] vec0.deep_view()[j],
            ),
        2 * dic0@.len() + 2 * vec0.deep_view().len() <= 8,
    ensures
        r@.len() == 18,
        r@.subrange(0, 2) == crate::tool::u16_le_bytes(unknown2),
        r@.subrange(2, 4) == crate::tool::u16_le_bytes(vbase),
        r@.subrange(12, 16) == crate::tool::u32_le_bytes(sd32),
        r@ == crate::tool::u16_le_bytes(unknown2) + crate::tool::u16_le_bytes(vbase)
            + entry_ids_bytes(kt.deep_view(), dic0@, dic0@.len() as int) + elem_ids_bytes(
            vt.deep_view(),
            vec0.deep_view(),
            vec0.deep_view().len() as int,
        ) + Seq::new(
            (8 - 2 * dic0@.len() - 2 * vec0.deep_view().len()) as nat,
            |i: int| 0u8,
        ) + crate::tool::u32_le_bytes(sd32) + crate::tool::u16_le_bytes(0),
{
    let mut aib: Vec<u8> = Vec::new();
    crate::tool::push_u16_le(&mut aib, unknown2);
    crate::tool::push_u16_le(&mut aib, vbase);
    let ghost aib4 = aib@;
    let mut de0 = emit_dict_entries(kt, dic0);
    aib.append(&mut de0);
    let mut ve0 = emit_vec_entries(vt, vec0);
    aib.append(&mut ve0);
    let ghost core = aib@;
    proof {
        assert(aib@.len() <= 12);
        assert(aib@.subrange(0, 4) =~= aib4);
        assert(aib@ =~= core + Seq::new(((aib@.len() - core.len()) as nat), |i: int| 0u8));
    }
    while aib.len() < 12
        invariant
            core.len() >= 4,
            core.len() <= 12,
            aib@.len() >= core.len(),
            aib@.len() <= 12,
            aib@.subrange(0, 4) == aib4,
            aib@ == core + Seq::new(((aib@.len() - core.len()) as nat), |i: int| 0u8),
        decreases 12 - aib@.len(),
    {
        let ghost pre = aib@;
        aib.push(0);
        proof {
            assert(aib@.subrange(0, 4) =~= pre.subrange(0, 4));
            assert(aib@ =~= core + Seq::new(((aib@.len() - core.len()) as nat), |i: int| 0u8));
        }
    }
    let ghost aib12 = aib@;
    crate::tool::push_u32_le(&mut aib, sd32);
    crate::tool::push_u16_le(&mut aib, 0);
    proof {
        assert(aib@.subrange(0, 4) =~= aib12.subrange(0, 4));
        assert(aib12.subrange(0, 4) == aib4);
        assert(aib@.subrange(0, 2) =~= crate::tool::u16_le_bytes(unknown2)) by {
            assert(aib@.subrange(0, 4)[0] == aib4[0]);
            assert(aib@.subrange(0, 4)[1] == aib4[1]);
        }
        assert(aib@.subrange(2, 4) =~= crate::tool::u16_le_bytes(vbase)) by {
            assert(aib@.subrange(0, 4)[2] == aib4[2]);
            assert(aib@.subrange(0, 4)[3] == aib4[3]);
        }
        assert(aib@.subrange(12, 16) =~= crate::tool::u32_le_bytes(sd32));
        assert(aib@ =~= crate::tool::u16_le_bytes(unknown2) + crate::tool::u16_le_bytes(vbase)
            + entry_ids_bytes(kt.deep_view(), dic0@, dic0@.len() as int) + elem_ids_bytes(
            vt.deep_view(),
            vec0.deep_view(),
            vec0.deep_view().len() as int,
        ) + Seq::new(
            (8 - 2 * dic0@.len() - 2 * vec0.deep_view().len()) as nat,
            |i: int| 0u8,
        ) + crate::tool::u32_le_bytes(sd32) + crate::tool::u16_le_bytes(0));
    }
    aib
}

/// Emit the string-pointer table: one 4-byte absolute offset per interned
/// string, each slot recorded for the relocation footer.
#[verifier::rlimit(100)]
fn emit_strptrs(
    st: &Vec<String>,
    sd: u64,
    strptr_off: u64,
    total: Ghost<u64>,
    ptrs: &mut Vec<u32>,
) -> (r: Vec<u8>)
    requires
        sd + st_bytes_len(st.deep_view(), st.deep_view().len() as int) <= total@,
        total@ <= u32::MAX,
        strptr_off + 4 * st.deep_view().len() <= sd,
        crate::tool::ascending(old(ptrs)@),
        old(ptrs)@.len() > 0,
        old(ptrs)@.last() < strptr_off,
    ensures
        r@.len() == 4 * st.deep_view().len(),
        r@ == sp_bytes(st.deep_view(), sd as int, st.deep_view().len() as int),
        final(ptrs)@ == old(ptrs)@ + sp_slots(strptr_off as int, st.deep_view().len() as int),
        crate::tool::ascending(final(ptrs)@),
        final(ptrs)@.len() > 0,
{
    let ghost stv = st.deep_view();
    let mut sp: Vec<u8> = Vec::new();
    let mut soff: u64 = sd;
    let mut sk: usize = 0;
    while sk < st.len()
        invariant
            stv == st.deep_view(),
            sk <= stv.len(),
            stv.len() == st@.len(),
            sp@.len() == 4 * sk,
            sp@ == sp_bytes(stv, sd as int, sk as int),
            soff == sd + st_bytes_len(stv, sk as int),
            sd + st_bytes_len(stv, stv.len() as int) <= total@,
            total@ <= u32::MAX,
            strptr_off + 4 * stv.len() <= sd,
            ptrs@ == old(ptrs)@ + sp_slots(strptr_off as int, sk as int),
            crate::tool::ascending(ptrs@),
            ptrs@.len() > 0,
            ptrs@.last() < strptr_off + 4 * (sk as int),
        decreases st@.len() - sk,
    {
        proof {
            lemma_st_bytes_mono(stv, sk + 1, stv.len() as int);
            lemma_st_bytes_mono(stv, 0, sk as int);
            lemma_st_bytes_mono(stv, 0, stv.len() as int);
            assert(strptr_off + 4 * (sk as int) < u32::MAX);
        }
        let slot: u32 = (strptr_off + 4 * (sk as u64)) as u32;
        proof {
            crate::tool::lemma_ascending_push(ptrs@, slot);
        }
        ptrs.push(slot);
        proof {
            assert(ptrs@ =~= old(ptrs)@ + sp_slots(strptr_off as int, sk + 1));
        }
        let ghost sp_pre = sp@;
        crate::tool::push_u32_le(&mut sp, soff as u32);
        proof {
            assert(sp@ =~= sp_pre + crate::tool::u32_le_bytes(
                (sd + st_bytes_len(stv, sk as int)) as u32,
            ));
        }
        let sb_k = st[sk].as_str().as_bytes();
        let l = sb_k.len();
        proof {
            assert(stv[sk as int] == st@[sk as int]@);
            assert(sb_k@ == vstd::utf8::encode_utf8(stv[sk as int]));
        }
        soff = soff + (l as u64) + 1;
        sk = sk + 1;
    }
    sp
}

/// What the encoder guarantees of a finished container for graph `g`: the
/// magic and every header field, the two metadata sections, the value and
/// keyval tables, the additional-info block with the first entry lists
/// inline, the string-pointer table, the late entry lists, the two alignment
/// bytes, and the raw string pool, each at its layout offset.
pub open spec fn container_facts(r: Seq<u8>, g: FlowDataV) -> bool {
    &&& container_fields(r, g)
    &&& container_sections(r, g)
}

/// The header and additional-info fields of a finished container.
pub open spec fn container_fields(r: Seq<u8>, g: FlowDataV) -> bool {
    let dn = g.dictionaries.len() as int;
    let vn = g.vectors.len() as int;
    let aig = encode_ai(g);
    &&& r.subrange(0, 4) == seq![0x53u8, 0x49u8, 0x52u8, 0x30u8]
    &&& u32_le_at(r, 4) == 16
    &&& u32_le_at(r, 8) == encode_end(g)
    &&& u32_le_at(r, 12) == 0
    &&& u32_le_at(r, 16) == g.unknown1
    &&& u32_le_at(r, 20) == aig
    &&& u32_le_at(r, 24) == dn
    &&& u32_le_at(r, 28) == 52
    &&& u32_le_at(r, 32) == vn
    &&& u32_le_at(r, 36) == 52 + 8 * dn
    &&& u32_le_at(r, 40) == aig + 18
    &&& u32_le_at(r, 44) == 52 + 8 * dn + 8 * vn
    &&& u32_le_at(r, 48) == 52 + 8 * dn + 8 * vn + 4 * (value_table(g).len() as int)
    &&& u16_le_at(r, aig) == g.unknown2
    &&& u16_le_at(r, aig + 2) == vn - 1
    &&& u32_le_at(r, aig + 12) == encode_strings_off(g)
}

/// The section contents of a finished container, each at its layout offset.
pub open spec fn container_sections(r: Seq<u8>, g: FlowDataV) -> bool {
    let dn = g.dictionaries.len() as int;
    let vn = g.vectors.len() as int;
    let aig = encode_ai(g);
    &&& r.subrange(52, 52 + 8 * dn) == dm_bytes(g, dn)
    &&& r.subrange(52 + 8 * dn, 52 + 8 * dn + 8 * vn) == vm_bytes(g, vn)
    &&& r.subrange(
        52 + 8 * dn + 8 * vn,
        52 + 8 * dn + 8 * vn + 4 * (value_table(g).len() as int),
    ) == vt_bytes(string_table(g), value_table(g), value_table(g).len() as int)
    &&& r.subrange(52 + 8 * dn + 8 * vn + 4 * (value_table(g).len() as int), aig) == kt_bytes(
        string_table(g),
        value_table(g),
        keyval_table(g),
        keyval_table(g).len() as int,
    )
    &&& r.subrange(aig, aig + 18) == ai_bytes(g)
    &&& r.subrange(aig + 18, aig + 18 + 4 * (string_table(g).len() as int)) == sp_bytes(
        string_table(g),
        encode_strings_off(g),
        string_table(g).len() as int,
    )
    &&& r.subrange(
        dict_entries_ptr(g, 1),
        dict_entries_ptr(g, 1) + 2 * sum_lens_from1(g.dictionaries, dn),
    ) == de_bytes(g, dn)
    &&& r.subrange(
        vec_entries_ptr(g, 1),
        vec_entries_ptr(g, 1) + 2 * sum_lens_from1(g.vectors, vn),
    ) == ve_bytes(g, vn)
    &&& r.subrange(encode_strings_off(g) - 2, encode_strings_off(g)) == seq![0u8, 0u8]
    &&& r.subrange(encode_strings_off(g), encode_end(g)) == strings_bytes(
        string_table(g),
        string_table(g).len() as int,
    )
}

/// The little-endian fields of the assembled body, read back from the byte
/// regions the sections put them in.
#[verifier::rlimit(100)]
proof fn lemma_le_facts(
    body: Seq<u8>,
    u1: u32,
    u2: u16,
    end32: u32,
    ai32: u32,
    d32: u32,
    v32: u32,
    vm32: u32,
    sp32: u32,
    val32: u32,
    kv32: u32,
    sd32: u32,
    vb: u16,
    ai: int,
)
    requires
        52 <= body.len(),
        0 <= ai,
        ai + 16 <= body.len(),
        body.subrange(4, 8) == crate::tool::u32_le_bytes(16),
        body.subrange(8, 12) == crate::tool::u32_le_bytes(end32),
        body.subrange(12, 16) == crate::tool::u32_le_bytes(0),
        body.subrange(16, 20) == crate::tool::u32_le_bytes(u1),
        body.subrange(20, 24) == crate::tool::u32_le_bytes(ai32),
        body.subrange(24, 28) == crate::tool::u32_le_bytes(d32),
        body.subrange(28, 32) == crate::tool::u32_le_bytes(52),
        body.subrange(32, 36) == crate::tool::u32_le_bytes(v32),
        body.subrange(36, 40) == crate::tool::u32_le_bytes(vm32),
        body.subrange(40, 44) == crate::tool::u32_le_bytes(sp32),
        body.subrange(44, 48) == crate::tool::u32_le_bytes(val32),
        body.subrange(48, 52) == crate::tool::u32_le_bytes(kv32),
        body.subrange(ai, ai + 2) == crate::tool::u16_le_bytes(u2),
        body.subrange(ai + 2, ai + 4) == crate::tool::u16_le_bytes(vb),
        body.subrange(ai + 12, ai + 16) == crate::tool::u32_le_bytes(sd32),
    ensures
        u32_le_at(body, 4) == 16,
        u32_le_at(body, 8) == end32,
        u32_le_at(body, 12) == 0,
        u32_le_at(body, 16) == u1,
        u32_le_at(body, 20) == ai32,
        u32_le_at(body, 24) == d32,
        u32_le_at(body, 28) == 52,
        u32_le_at(body, 32) == v32,
        u32_le_at(body, 36) == vm32,
        u32_le_at(body, 40) == sp32,
        u32_le_at(body, 44) == val32,
        u32_le_at(body, 48) == kv32,
        u16_le_at(body, ai) == u2,
        u16_le_at(body, ai + 2) == vb,
        u32_le_at(body, ai + 12) == sd32,
{
    crate::tool::lemma_u32_le_at_bytes(body, 4, 16);
    crate::tool::lemma_u32_le_at_bytes(body, 8, end32);
    crate::tool::lemma_u32_le_at_bytes(body, 12, 0);
    crate::tool::lemma_u32_le_at_bytes(body, 16, u1);
    crate::tool::lemma_u32_le_at_bytes(body, 20, ai32);
    crate::tool::lemma_u32_le_at_bytes(body, 24, d32);
    crate::tool::lemma_u32_le_at_bytes(body, 28, 52);
    crate::tool::lemma_u32_le_at_bytes(body, 32, v32);
    crate::tool::lemma_u32_le_at_bytes(body, 36, vm32);
    crate::tool::lemma_u32_le_at_bytes(body, 40, sp32);
    crate::tool::lemma_u32_le_at_bytes(body, 44, val32);
    crate::tool::lemma_u32_le_at_bytes(body, 48, kv32);
    crate::tool::lemma_u16_le_at_bytes(body, ai, u2);
    crate::tool::lemma_u16_le_at_bytes(body, ai + 2, vb);
    crate::tool::lemma_u32_le_at_bytes(body, ai + 12, sd32);
}

/// Concatenate every emitted section in layout order, append the relocation
/// footer and the trailing padding, and carry each section's bytes into
/// facts about the finished container.
#[verifier::rlimit(100)]
fn assemble_container(
    hdr: Vec<u8>,
    dmeta: Vec<u8>,
    vmeta: Vec<u8>,
    valtab: Vec<u8>,
    kvtab: Vec<u8>,
    aib: Vec<u8>,
    sp: Vec<u8>,
    de: Vec<u8>,
    ve: Vec<u8>,
    strsec: Vec<u8>,
    ptrs: Vec<u32>,
    g: Ghost<FlowDataV>,
    end: u64,
    ai: u64,
    sd: u64,
    d_count: u64,
    v_count: u64,
    vt_len: u64,
) -> (r: Vec<u8>)
    requires
        g@.dictionaries.len() >= 1,
        g@.vectors.len() >= 1,
        d_count == g@.dictionaries.len(),
        v_count == g@.vectors.len(),
        vt_len == value_table(g@).len(),
        ai == encode_ai(g@),
        sd == encode_strings_off(g@),
        end == encode_end(g@),
        end <= u32::MAX,
        g@.dictionaries.len() <= 65536,
        g@.vectors.len() <= 65536,
        value_table(g@).len() <= 65536,
        keyval_table(g@).len() <= 65536,
        string_table(g@).len() <= 65536,
        52 <= ai,
        ai + 18 <= sd,
        sd <= end,
        hdr@.len() == 52,
        hdr@.subrange(0, 4) == seq![0x53u8, 0x49u8, 0x52u8, 0x30u8],
        hdr@.subrange(4, 8) == crate::tool::u32_le_bytes(16),
        hdr@.subrange(8, 12) == crate::tool::u32_le_bytes(end as u32),
        hdr@.subrange(12, 16) == crate::tool::u32_le_bytes(0),
        hdr@.subrange(16, 20) == crate::tool::u32_le_bytes(g@.unknown1),
        hdr@.subrange(20, 24) == crate::tool::u32_le_bytes(ai as u32),
        hdr@.subrange(24, 28) == crate::tool::u32_le_bytes(d_count as u32),
        hdr@.subrange(28, 32) == crate::tool::u32_le_bytes(52),
        hdr@.subrange(32, 36) == crate::tool::u32_le_bytes(v_count as u32),
        hdr@.subrange(36, 40) == crate::tool::u32_le_bytes((52 + 8 * d_count) as u32),
        hdr@.subrange(40, 44) == crate::tool::u32_le_bytes((ai + 18) as u32),
        hdr@.subrange(44, 48) == crate::tool::u32_le_bytes(
            (52 + 8 * d_count + 8 * v_count) as u32,
        ),
        hdr@.subrange(48, 52) == crate::tool::u32_le_bytes(
            (52 + 8 * d_count + 8 * v_count + 4 * vt_len) as u32,
        ),
        dmeta@ == dm_bytes(g@, g@.dictionaries.len() as int),
        dmeta@.len() == 8 * g@.dictionaries.len(),
        vmeta@ == vm_bytes(g@, g@.vectors.len() as int),
        vmeta@.len() == 8 * g@.vectors.len(),
        valtab@ == vt_bytes(string_table(g@), value_table(g@), value_table(g@).len() as int),
        valtab@.len() == 4 * value_table(g@).len(),
        kvtab@ == kt_bytes(
            string_table(g@),
            value_table(g@),
            keyval_table(g@),
            keyval_table(g@).len() as int,
        ),
        kvtab@.len() == 4 * keyval_table(g@).len(),
        aib@ == ai_bytes(g@),
        aib@.len() == 18,
        aib@.subrange(0, 2) == crate::tool::u16_le_bytes(g@.unknown2),
        aib@.subrange(2, 4) == crate::tool::u16_le_bytes((v_count - 1) as u16),
        aib@.subrange(12, 16) == crate::tool::u32_le_bytes(sd as u32),
        sp@ == sp_bytes(string_table(g@), sd as int, string_table(g@).len() as int),
        sp@.len() == 4 * string_table(g@).len(),
        de@ == de_bytes(g@, g@.dictionaries.len() as int),
        de@.len() == 2 * sum_lens_from1(g@.dictionaries, g@.dictionaries.len() as int),
        ve@ == ve_bytes(g@, g@.vectors.len() as int),
        ve@.len() == 2 * sum_lens_from1(g@.vectors, g@.vectors.len() as int),
        strsec@ == strings_bytes(string_table(g@), string_table(g@).len() as int),
        strsec@.len() == st_bytes_len(string_table(g@), string_table(g@).len() as int),
        crate::tool::ascending(ptrs@),
        ptrs@ == ptr_slots(g@),
    ensures
        r@.len() == encode_end(g@) + crate::tool::footer_bytes_skip(ptr_slots(g@)).len() + 14,
        container_facts(r@, g@),
        r@.subrange(encode_end(g@), r@.len() as int) == crate::tool::footer_bytes_skip(
            ptr_slots(g@),
        ) + Seq::new(14, |i: int| 0u8),
{
    let ghost hdrg = hdr@;
    let ghost dmetag = dmeta@;
    let ghost vmetag = vmeta@;
    let ghost valtabg = valtab@;
    let ghost kvtabg = kvtab@;
    let ghost aibg = aib@;
    let ghost spg = sp@;
    let ghost deg = de@;
    let ghost veg = ve@;
    let ghost strsecg = strsec@;
    let mut out = hdr;
    let mut dmeta = dmeta;
    let mut vmeta = vmeta;
    let mut valtab = valtab;
    let mut kvtab = kvtab;
    let mut aib = aib;
    let mut sp = sp;
    let mut de = de;
    let mut ve = ve;
    let mut strsec = strsec;
    out.append(&mut dmeta);
    out.append(&mut vmeta);
    out.append(&mut valtab);
    out.append(&mut kvtab);
    out.append(&mut aib);
    out.append(&mut sp);
    out.append(&mut de);
    out.append(&mut ve);
    out.push(0);
    out.push(0);
    out.append(&mut strsec);
    let ghost body = out@;
    proof {
        assert(body == hdrg + dmetag + vmetag + valtabg + kvtabg + aibg + spg + deg + veg
            + seq![0u8] + seq![0u8] + strsecg);
        assert(body.len() == end);
        assert(seq![0u8] + seq![0u8] =~= seq![0u8, 0u8]);
    }
    match sir0_footer(&mut out, ptrs.as_slice()) {
        Ok(_) => {},
        Err(_) => {
            assert(false);
        },
    }
    let ghost with_footer = out@;
    proof {
        assert(with_footer == body + crate::tool::footer_bytes_skip(ptr_slots(g@)));
    }
    let mut z: usize = 0;
    while z < 14
        invariant
            z <= 14,
            out@.len() == with_footer.len() + z,
            with_footer.len() >= body.len(),
            out@ == with_footer + Seq::new(z as nat, |i: int| 0u8),
            out@.subrange(0, body.len() as int) == body,
        decreases 14 - z,
    {
        let ghost pre = out@;
        out.push(0);
        proof {
            assert(out@ =~= with_footer + Seq::new((z + 1) as nat, |i: int| 0u8));
            assert(out@.subrange(0, body.len() as int) =~= pre.subrange(0, body.len() as int));
        }
        z = z + 1;
    }
    proof {
        assert(out@.subrange(body.len() as int, out@.len() as int)
            =~= crate::tool::footer_bytes_skip(ptr_slots(g@)) + Seq::new(14, |i: int| 0u8));
    }
    proof {
        reveal(finish_pre);
        assert(finish_pre(body, g@, hdrg, end, ai, sd, d_count, v_count, vt_len));
        lemma_finish(body, out@, g@, hdrg, end, ai, sd, d_count, v_count, vt_len);
    }
    out
}

/// From the assembled body and its preserved place at the front of the
/// whole container, conclude every fact the encoder promises.
#[verifier::rlimit(100)]
proof fn lemma_finish(
    body: Seq<u8>,
    whole: Seq<u8>,
    g: FlowDataV,
    hdrseq: Seq<u8>,
    end: u64,
    ai: u64,
    sd: u64,
    d_count: u64,
    v_count: u64,
    vt_len: u64,
)
    requires
        finish_pre(body, g, hdrseq, end, ai, sd, d_count, v_count, vt_len),
        finish_scalars(g, end, ai, sd, d_count, v_count, vt_len),
        body.len() == end,
        whole.len() >= body.len(),
        whole.subrange(0, body.len() as int) == body,
    ensures
        container_facts(whole, g),
{
    lemma_finish_body(body, g, hdrseq, end, ai, sd, d_count, v_count, vt_len);
    lemma_sum_lens_mono(g.dictionaries, 0, g.dictionaries.len() as int);
    lemma_sum_lens_mono(g.vectors, 0, g.vectors.len() as int);
    lemma_st_bytes_mono(string_table(g), 0, string_table(g).len() as int);
    crate::tool::lemma_le_at_prefix(body, whole);
    crate::tool::lemma_subrange_prefix(body, whole);
    assert(whole.subrange(0, 4) == body.subrange(0, 4));
    assert(container_fields(whole, g));
    assert(container_sections(whole, g));
}

/// The scalar layout relations of an assembled body.
pub open spec fn finish_scalars(
    g: FlowDataV,
    end: u64,
    ai: u64,
    sd: u64,
    d_count: u64,
    v_count: u64,
    vt_len: u64,
) -> bool {
    &&& g.dictionaries.len() >= 1
    &&& g.vectors.len() >= 1
    &&& d_count == g.dictionaries.len()
    &&& v_count == g.vectors.len()
    &&& vt_len == value_table(g).len()
    &&& ai == encode_ai(g)
    &&& sd == encode_strings_off(g)
    &&& end == encode_end(g)
    &&& end <= u32::MAX
    &&& g.dictionaries.len() <= 65536
    &&& g.vectors.len() <= 65536
    &&& value_table(g).len() <= 65536
    &&& keyval_table(g).len() <= 65536
    &&& string_table(g).len() <= 65536
    &&& 52 <= ai
    &&& ai + 18 <= sd
    &&& sd <= end
}

/// Everything known of the assembled body and its section builders when the
/// sections have been emitted and concatenated.
#[verifier::opaque]
pub open spec fn finish_pre(
    body: Seq<u8>,
    g: FlowDataV,
    hdrseq: Seq<u8>,
    end: u64,
    ai: u64,
    sd: u64,
    d_count: u64,
    v_count: u64,
    vt_len: u64,
) -> bool {
    &&& g.dictionaries.len() >= 1
    &&& g.vectors.len() >= 1
    &&& d_count == g.dictionaries.len()
    &&& v_count == g.vectors.len()
    &&& vt_len == value_table(g).len()
    &&& ai == encode_ai(g)
    &&& sd == encode_strings_off(g)
    &&& end == encode_end(g)
    &&& end <= u32::MAX
    &&& hdrseq.len() == 52
    &&& hdrseq.subrange(0, 4) == seq![0x53u8, 0x49u8, 0x52u8, 0x30u8]
    &&& hdrseq.subrange(4, 8) == crate::tool::u32_le_bytes(16)
    &&& hdrseq.subrange(8, 12) == crate::tool::u32_le_bytes(end as u32)
    &&& hdrseq.subrange(12, 16) == crate::tool::u32_le_bytes(0)
    &&& hdrseq.subrange(16, 20) == crate::tool::u32_le_bytes(g.unknown1)
    &&& hdrseq.subrange(20, 24) == crate::tool::u32_le_bytes(ai as u32)
    &&& hdrseq.subrange(24, 28) == crate::tool::u32_le_bytes(d_count as u32)
    &&& hdrseq.subrange(28, 32) == crate::tool::u32_le_bytes(52)
    &&& hdrseq.subrange(32, 36) == crate::tool::u32_le_bytes(v_count as u32)
    &&& hdrseq.subrange(36, 40) == crate::tool::u32_le_bytes((52 + 8 * d_count) as u32)
    &&& hdrseq.subrange(40, 44) == crate::tool::u32_le_bytes((ai + 18) as u32)
    &&& hdrseq.subrange(44, 48) == crate::tool::u32_le_bytes(
            (52 + 8 * d_count + 8 * v_count) as u32,
        )
    &&& hdrseq.subrange(48, 52) == crate::tool::u32_le_bytes(
            (52 + 8 * d_count + 8 * v_count + 4 * vt_len) as u32,
        )
    &&& ai_bytes(g).len() == 18
    &&& ai_bytes(g).subrange(0, 2) == crate::tool::u16_le_bytes(g.unknown2)
    &&& ai_bytes(g).subrange(2, 4) == crate::tool::u16_le_bytes((v_count - 1) as u16)
    &&& ai_bytes(g).subrange(12, 16) == crate::tool::u32_le_bytes(sd as u32)
    &&& body == hdrseq + dm_bytes(g, g.dictionaries.len() as int) + vm_bytes(
            g,
            g.vectors.len() as int,
        ) + vt_bytes(string_table(g), value_table(g), value_table(g).len() as int) + kt_bytes(
            string_table(g),
            value_table(g),
            keyval_table(g),
            keyval_table(g).len() as int,
        ) + ai_bytes(g) + sp_bytes(string_table(g), sd as int, string_table(g).len() as int)
            + de_bytes(g, g.dictionaries.len() as int) + ve_bytes(g, g.vectors.len() as int)
            + seq![0u8] + seq![0u8] + strings_bytes(
            string_table(g),
            string_table(g).len() as int,
        )
    &&& dm_bytes(g, g.dictionaries.len() as int).len() == 8 * g.dictionaries.len()
    &&& vm_bytes(g, g.vectors.len() as int).len() == 8 * g.vectors.len()
    &&& vt_bytes(string_table(g), value_table(g), value_table(g).len() as int).len() == 4
            * value_table(g).len()
    &&& kt_bytes(
            string_table(g),
            value_table(g),
            keyval_table(g),
            keyval_table(g).len() as int,
        ).len() == 4 * keyval_table(g).len()
    &&& sp_bytes(string_table(g), sd as int, string_table(g).len() as int).len() == 4
            * string_table(g).len()
    &&& de_bytes(g, g.dictionaries.len() as int).len() == 2 * sum_lens_from1(
            g.dictionaries,
            g.dictionaries.len() as int,
        )
    &&& ve_bytes(g, g.vectors.len() as int).len() == 2 * sum_lens_from1(
            g.vectors,
            g.vectors.len() as int,
        )
    &&& strings_bytes(string_table(g), string_table(g).len() as int).len() == st_bytes_len(
            string_table(g),
            string_table(g).len() as int,
        )
    &&& body.len() == end
}

/// The same facts, first established on the body alone.
proof fn lemma_finish_body(
    body: Seq<u8>,
    g: FlowDataV,
    hdrseq: Seq<u8>,
    end: u64,
    ai: u64,
    sd: u64,
    d_count: u64,
    v_count: u64,
    vt_len: u64,
)
    requires
        finish_pre(body, g, hdrseq, end, ai, sd, d_count, v_count, vt_len),
        finish_scalars(g, end, ai, sd, d_count, v_count, vt_len),
        body.len() == end,
    ensures
        container_facts(body, g),
{
    lemma_finish_fields(body, g, hdrseq, end, ai, sd, d_count, v_count, vt_len);
    lemma_finish_sections(body, g, hdrseq, end, ai, sd, d_count, v_count, vt_len);
}

/// The raw header and additional-info byte regions of the body.
proof fn lemma_hdr_subranges(
    body: Seq<u8>,
    g: FlowDataV,
    hdrseq: Seq<u8>,
    end: u64,
    ai: u64,
    sd: u64,
    d_count: u64,
    v_count: u64,
    vt_len: u64,
)
    requires
        finish_pre(body, g, hdrseq, end, ai, sd, d_count, v_count, vt_len),
        finish_scalars(g, end, ai, sd, d_count, v_count, vt_len),
        body.len() == end,
    ensures
        52 <= body.len(),
        0 <= ai,
        ai + 16 <= body.len(),
        body.subrange(0, 4) == seq![0x53u8, 0x49u8, 0x52u8, 0x30u8],
        body.subrange(4, 8) == crate::tool::u32_le_bytes(16),
        body.subrange(8, 12) == crate::tool::u32_le_bytes(end as u32),
        body.subrange(12, 16) == crate::tool::u32_le_bytes(0),
        body.subrange(16, 20) == crate::tool::u32_le_bytes(g.unknown1),
        body.subrange(20, 24) == crate::tool::u32_le_bytes(ai as u32),
        body.subrange(24, 28) == crate::tool::u32_le_bytes(d_count as u32),
        body.subrange(28, 32) == crate::tool::u32_le_bytes(52),
        body.subrange(32, 36) == crate::tool::u32_le_bytes(v_count as u32),
        body.subrange(36, 40) == crate::tool::u32_le_bytes((52 + 8 * d_count) as u32),
        body.subrange(40, 44) == crate::tool::u32_le_bytes((ai + 18) as u32),
        body.subrange(44, 48) == crate::tool::u32_le_bytes(
            (52 + 8 * d_count + 8 * v_count) as u32,
        ),
        body.subrange(48, 52) == crate::tool::u32_le_bytes(
            (52 + 8 * d_count + 8 * v_count + 4 * vt_len) as u32,
        ),
        body.subrange(ai as int, ai + 2) == crate::tool::u16_le_bytes(g.unknown2),
        body.subrange(ai + 2, ai + 4) == crate::tool::u16_le_bytes((v_count - 1) as u16),
        body.subrange(ai + 12, ai + 16) == crate::tool::u32_le_bytes(sd as u32),
{
    reveal(finish_pre);
    lemma_assembled_facts(
        hdrseq,
        dm_bytes(g, g.dictionaries.len() as int),
        vm_bytes(g, g.vectors.len() as int),
        vt_bytes(string_table(g), value_table(g), value_table(g).len() as int),
        kt_bytes(
            string_table(g),
            value_table(g),
            keyval_table(g),
            keyval_table(g).len() as int,
        ),
        ai_bytes(g),
        sp_bytes(string_table(g), sd as int, string_table(g).len() as int),
        de_bytes(g, g.dictionaries.len() as int),
        ve_bytes(g, g.vectors.len() as int),
        strings_bytes(string_table(g), string_table(g).len() as int),
        body,
        ai as int,
    );
}

/// The header and additional-info fields, read back from the body.
proof fn lemma_finish_fields(
    body: Seq<u8>,
    g: FlowDataV,
    hdrseq: Seq<u8>,
    end: u64,
    ai: u64,
    sd: u64,
    d_count: u64,
    v_count: u64,
    vt_len: u64,
)
    requires
        finish_pre(body, g, hdrseq, end, ai, sd, d_count, v_count, vt_len),
        finish_scalars(g, end, ai, sd, d_count, v_count, vt_len),
        body.len() == end,
    ensures
        container_fields(body, g),
{
    lemma_hdr_subranges(body, g, hdrseq, end, ai, sd, d_count, v_count, vt_len);
    lemma_le_facts(
        body,
        g.unknown1,
        g.unknown2,
        end as u32,
        ai as u32,
        d_count as u32,
        v_count as u32,
        (52 + 8 * d_count) as u32,
        (ai + 18) as u32,
        (52 + 8 * d_count + 8 * v_count) as u32,
        (52 + 8 * d_count + 8 * v_count + 4 * vt_len) as u32,
        sd as u32,
        (v_count - 1) as u16,
        ai as int,
    );
}

/// The section contents, read back from the body at their layout offsets.
#[verifier::rlimit(100)]
proof fn lemma_finish_sections(
    body: Seq<u8>,
    g: FlowDataV,
    hdrseq: Seq<u8>,
    end: u64,
    ai: u64,
    sd: u64,
    d_count: u64,
    v_count: u64,
    vt_len: u64,
)
    requires
        finish_pre(body, g, hdrseq, end, ai, sd, d_count, v_count, vt_len),
        finish_scalars(g, end, ai, sd, d_count, v_count, vt_len),
        body.len() == end,
    ensures
        container_sections(body, g),
{
    reveal(finish_pre);
    lemma_assembled_facts(
        hdrseq,
        dm_bytes(g, g.dictionaries.len() as int),
        vm_bytes(g, g.vectors.len() as int),
        vt_bytes(string_table(g), value_table(g), value_table(g).len() as int),
        kt_bytes(
            string_table(g),
            value_table(g),
            keyval_table(g),
            keyval_table(g).len() as int,
        ),
        ai_bytes(g),
        sp_bytes(string_table(g), sd as int, string_table(g).len() as int),
        de_bytes(g, g.dictionaries.len() as int),
        ve_bytes(g, g.vectors.len() as int),
        strings_bytes(string_table(g), string_table(g).len() as int),
        body,
        ai as int,
    );
    assert(sum_lens_from1(g.dictionaries, 1) == 0);
    assert(sum_lens_from1(g.vectors, 1) == 0);
}

/// The layout facts of the assembled body: the header fields sit in the
/// first 52 bytes, and the additional-info block sits at `ai`.
#[verifier::rlimit(100)]
proof fn lemma_assembled_facts(
    hdr: Seq<u8>,
    dmetag: Seq<u8>,
    vmetag: Seq<u8>,
    valtabg: Seq<u8>,
    kvtabg: Seq<u8>,
    aibg: Seq<u8>,
    spg: Seq<u8>,
    deg: Seq<u8>,
    veg: Seq<u8>,
    strsecg: Seq<u8>,
    body: Seq<u8>,
    ai: int,
)
    requires
        body == hdr + dmetag + vmetag + valtabg + kvtabg + aibg + spg + deg + veg + seq![0u8]
            + seq![0u8] + strsecg,
        hdr.len() == 52,
        aibg.len() == 18,
        ai == 52 + dmetag.len() + vmetag.len() + valtabg.len() + kvtabg.len(),
    ensures
        body.subrange(0, 4) == hdr.subrange(0, 4),
        body.subrange(4, 8) == hdr.subrange(4, 8),
        body.subrange(8, 12) == hdr.subrange(8, 12),
        body.subrange(16, 20) == hdr.subrange(16, 20),
        body.subrange(20, 24) == hdr.subrange(20, 24),
        body.subrange(24, 28) == hdr.subrange(24, 28),
        body.subrange(28, 32) == hdr.subrange(28, 32),
        body.subrange(32, 36) == hdr.subrange(32, 36),
        body.subrange(36, 40) == hdr.subrange(36, 40),
        body.subrange(40, 44) == hdr.subrange(40, 44),
        body.subrange(44, 48) == hdr.subrange(44, 48),
        body.subrange(48, 52) == hdr.subrange(48, 52),
        body.subrange(ai, ai + 2) == aibg.subrange(0, 2),
        body.subrange(ai + 2, ai + 4) == aibg.subrange(2, 4),
        body.subrange(ai + 12, ai + 16) == aibg.subrange(12, 16),
        body.subrange(52, 52 + (dmetag.len() as int)) == dmetag,
        body.subrange(
            52 + (dmetag.len() as int),
            52 + (dmetag.len() as int) + (vmetag.len() as int),
        ) == vmetag,
        body.subrange(
            52 + (dmetag.len() as int) + (vmetag.len() as int),
            52 + (dmetag.len() as int) + (vmetag.len() as int) + (valtabg.len() as int),
        ) == valtabg,
        body.subrange(
            52 + (dmetag.len() as int) + (vmetag.len() as int) + (valtabg.len() as int),
            ai,
        ) == kvtabg,
        body.subrange(ai + 18, ai + 18 + (spg.len() as int)) == spg,
        body.subrange((body.len() - strsecg.len()) as int, body.len() as int) == strsecg,
        body.subrange(ai, ai + 18) == aibg,
        body.subrange(
            ai + 18 + (spg.len() as int),
            ai + 18 + (spg.len() as int) + (deg.len() as int),
        ) == deg,
        body.subrange(
            ai + 18 + (spg.len() as int) + (deg.len() as int),
            ai + 18 + (spg.len() as int) + (deg.len() as int) + (veg.len() as int),
        ) == veg,
        body.subrange(
            ai + 18 + (spg.len() as int) + (deg.len() as int) + (veg.len() as int),
            ai + 18 + (spg.len() as int) + (deg.len() as int) + (veg.len() as int) + 2,
        ) == seq![0u8, 0u8],
{
    assert forall|p: int| 0 <= p < 52 implies body[p] == hdr[p] by {}
    assert forall|p: int| 0 <= p < 18 implies body[ai + p] == aibg[p] by {}
    let voff = 52 + (dmetag.len() as int) + (vmetag.len() as int);
    assert forall|p: int| 0 <= p < dmetag.len() implies body[52 + p] == dmetag[p] by {}
    assert forall|p: int|
        0 <= p < vmetag.len() implies body[52 + dmetag.len() + p] == vmetag[p] by {}
    assert(body.subrange(52, 52 + (dmetag.len() as int)) =~= dmetag);
    assert(body.subrange(52 + (dmetag.len() as int), voff) =~= vmetag);
    assert forall|p: int| 0 <= p < valtabg.len() implies body[voff + p] == valtabg[p] by {}
    assert forall|p: int|
        0 <= p < kvtabg.len() implies body[voff + valtabg.len() + p] == kvtabg[p] by {}
    assert(body.subrange(voff, voff + valtabg.len()) =~= valtabg);
    assert(body.subrange(voff + valtabg.len(), ai) =~= kvtabg);
    assert forall|p: int| 0 <= p < spg.len() implies body[ai + 18 + p] == spg[p] by {}
    assert(body.subrange(ai + 18, ai + 18 + (spg.len() as int)) =~= spg);
    assert forall|p: int|
        0 <= p < strsecg.len() implies body[body.len() - strsecg.len() + p] == strsecg[p] by {}
    assert(body.subrange((body.len() - strsecg.len()) as int, body.len() as int) =~= strsecg);
    assert(body.subrange(ai, ai + 18) =~= aibg);
    let eoff = ai + 18 + (spg.len() as int);
    assert forall|p: int| 0 <= p < deg.len() implies body[eoff + p] == deg[p] by {}
    assert(body.subrange(eoff, eoff + (deg.len() as int)) =~= deg);
    assert forall|p: int| 0 <= p < veg.len() implies body[eoff + deg.len() + p] == veg[p] by {}
    assert(body.subrange(eoff + (deg.len() as int), eoff + (deg.len() as int) + (veg.len() as int))
        =~= veg);
    assert(body.subrange(
        eoff + (deg.len() as int) + (veg.len() as int),
        eoff + (deg.len() as int) + (veg.len() as int) + 2,
    ) =~= seq![0u8, 0u8]);
    assert(body.subrange(0, 4) =~= hdr.subrange(0, 4));
    assert(body.subrange(4, 8) =~= hdr.subrange(4, 8));
    assert(body.subrange(8, 12) =~= hdr.subrange(8, 12));
    assert(body.subrange(16, 20) =~= hdr.subrange(16, 20));
    assert(body.subrange(20, 24) =~= hdr.subrange(20, 24));
    assert(body.subrange(24, 28) =~= hdr.subrange(24, 28));
    assert(body.subrange(28, 32) =~= hdr.subrange(28, 32));
    assert(body.subrange(32, 36) =~= hdr.subrange(32, 36));
    assert(body.subrange(36, 40) =~= hdr.subrange(36, 40));
    assert(body.subrange(40, 44) =~= hdr.subrange(40, 44));
    assert(body.subrange(44, 48) =~= hdr.subrange(44, 48));
    assert(body.subrange(48, 52) =~= hdr.subrange(48, 52));
    assert(body.subrange(ai, ai + 2) =~= aibg.subrange(0, 2));
    assert(body.subrange(ai + 2, ai + 4) =~= aibg.subrange(2, 4));
    assert(body.subrange(ai + 12, ai + 16) =~= aibg.subrange(12, 16));
}

impl FlowData {
    /// Emit the dictionary metadata: one (count, pointer) record per
    /// dictionary, the first dictionary's entries living inline in the
    /// additional-info block, the rest packed after the string-pointer
    /// table; each pointer slot is recorded for the relocation footer.
    #[verifier::rlimit(100)]
    fn emit_dict_meta(
        &self,
        ai: u64,
        dict1_off: u64,
        dsum: Ghost<u64>,
        total: Ghost<u64>,
        ptrs: &mut Vec<u32>,
    ) -> (r: Vec<u8>)
        requires
            self.wf(),
            self@.dictionaries.len() >= 1,
            2 * self@.dictionaries[0].len() <= 8,
            dsum@ == 2 * sum_lens_from1(self@.dictionaries, self@.dictionaries.len() as int),
            forall|k: int|
                1 <= k < self@.dictionaries.len() ==> (#[trigger] self@.dictionaries[k]).len()
                    <= u32::MAX,
            dict1_off + dsum@ <= total@,
            total@ <= u32::MAX,
            ai + 4 <= total@,
            ai == encode_ai(self@),
            dict1_off == encode_ai(self@) + 18 + 4 * (string_table(self@).len() as int),
            crate::tool::ascending(old(ptrs)@),
            old(ptrs)@.len() > 0,
            old(ptrs)@.last() < 56,
        ensures
            r@.len() == 8 * self@.dictionaries.len(),
            r@ == dm_bytes(self@, self@.dictionaries.len() as int),
            final(ptrs)@ == old(ptrs)@ + dm_slots(self@.dictionaries.len() as int),
            crate::tool::ascending(final(ptrs)@),
            final(ptrs)@.len() > 0,
            final(ptrs)@.last() < 52 + 8 * (self@.dictionaries.len() as int) + 4,
    {
        let ghost g = self@;
        let ghost dn = g.dictionaries.len() as int;
        let mut dmeta: Vec<u8> = Vec::new();
        let mut epos: u64 = dict1_off;
        let mut mi: usize = 0;
        while mi < self.dictionary_len()
            invariant
                self.wf(),
                g == self@,
                dn == g.dictionaries.len(),
                dn >= 1,
                2 * g.dictionaries[0].len() <= 8,
                mi <= dn,
                dmeta@.len() == 8 * mi,
                dmeta@ == dm_bytes(g, mi as int),
                dsum@ == 2 * sum_lens_from1(g.dictionaries, dn),
                forall|k2: int| 1 <= k2 < dn ==> (#[trigger] g.dictionaries[k2]).len() <= u32::MAX,
                mi == 0 ==> epos == dict1_off,
                mi >= 1 ==> epos == dict1_off + 2 * sum_lens_from1(g.dictionaries, mi as int),
                dict1_off + dsum@ <= total@,
                total@ <= u32::MAX,
                ai + 4 <= total@,
                ai == encode_ai(g),
                dict1_off == encode_ai(g) + 18 + 4 * (string_table(g).len() as int),
                ptrs@ == old(ptrs)@ + dm_slots(mi as int),
                crate::tool::ascending(ptrs@),
                ptrs@.len() > 0,
                ptrs@.last() < 52 + 8 * (mi as int) + 4,
            decreases dn - mi,
        {
            let dic = self.get_dictionary(mi).unwrap();
            let l = dic.len();
            proof {
                lemma_sum_lens_mono(g.dictionaries, mi + 1, dn);
                if mi >= 1 {
                    assert(sum_lens_from1(g.dictionaries, mi + 1) == sum_lens_from1(
                        g.dictionaries,
                        mi as int,
                    ) + l);
                }
                lemma_sum_lens_mono(g.dictionaries, 0, mi as int);
            }
            let ghost pre = dmeta@;
            crate::tool::push_u32_le(&mut dmeta, l as u32);
            if mi == 0 {
                crate::tool::push_u32_le(&mut dmeta, (ai + 4) as u32);
            } else {
                crate::tool::push_u32_le(&mut dmeta, epos as u32);
                epos = epos + 2 * (l as u64);
            }
            proof {
                assert(dmeta@ =~= pre + crate::tool::u32_le_bytes(
                    g.dictionaries[mi as int].len() as u32,
                ) + crate::tool::u32_le_bytes(dict_entries_ptr(g, mi as int) as u32));
            }
            let slot: u32 = (52 + 8 * (mi as u64) + 4) as u32;
            proof {
                crate::tool::lemma_ascending_push(ptrs@, slot);
            }
            ptrs.push(slot);
            proof {
                assert(ptrs@ =~= old(ptrs)@ + dm_slots(mi + 1));
            }
            mi = mi + 1;
        }
        dmeta
    }

    /// Emit the vector metadata: one (count, pointer) record per vector, the
    /// first vector's elements living inline right after the first
    /// dictionary's, the rest packed after the late dictionary entry lists;
    /// each pointer slot is recorded for the relocation footer.
    #[verifier::rlimit(100)]
    fn emit_vec_meta(
        &self,
        ai: u64,
        dic0_len: u64,
        vec1_off: u64,
        vsum: Ghost<u64>,
        total: Ghost<u64>,
        ptrs: &mut Vec<u32>,
    ) -> (r: Vec<u8>)
        requires
            self.wf(),
            self@.vectors.len() >= 1,
            self@.dictionaries.len() >= 1,
            dic0_len == self@.dictionaries[0].len(),
            2 * self@.dictionaries[0].len() <= 8,
            2 * self@.vectors[0].len() <= 8,
            vsum@ == 2 * sum_lens_from1(self@.vectors, self@.vectors.len() as int),
            forall|k: int|
                1 <= k < self@.vectors.len() ==> (#[trigger] self@.vectors[k]).len() <= u32::MAX,
            vec1_off + vsum@ <= total@,
            total@ <= u32::MAX,
            ai + 16 <= total@,
            52 + 8 * (self@.dictionaries.len() as int) + 8 * (self@.vectors.len() as int) + 4
                <= ai + 4,
            ai == encode_ai(self@),
            vec1_off == encode_ai(self@) + 18 + 4 * (string_table(self@).len() as int) + 2
                * sum_lens_from1(self@.dictionaries, self@.dictionaries.len() as int),
            crate::tool::ascending(old(ptrs)@),
            old(ptrs)@.len() > 0,
            old(ptrs)@.last() < 52 + 8 * (self@.dictionaries.len() as int) + 4,
        ensures
            r@.len() == 8 * self@.vectors.len(),
            r@ == vm_bytes(self@, self@.vectors.len() as int),
            final(ptrs)@ == old(ptrs)@ + vm_slots(
                52 + 8 * (self@.dictionaries.len() as int),
                self@.vectors.len() as int,
            ),
            crate::tool::ascending(final(ptrs)@),
            final(ptrs)@.len() > 0,
            final(ptrs)@.last() < 52 + 8 * (self@.dictionaries.len() as int) + 8 * (
            self@.vectors.len() as int) + 4,
    {
        let ghost g = self@;
        let ghost dn = g.dictionaries.len() as int;
        let ghost vn = g.vectors.len() as int;
        let d_count: u64 = self.dictionary_len() as u64;
        let mut vmeta: Vec<u8> = Vec::new();
        let mut vpos: u64 = vec1_off;
        let mut mv: usize = 0;
        while mv < self.vector_len()
            invariant
                self.wf(),
                g == self@,
                dn == g.dictionaries.len(),
                vn == g.vectors.len(),
                dn >= 1,
                vn >= 1,
                d_count == dn,
                dic0_len == g.dictionaries[0].len(),
                2 * g.dictionaries[0].len() <= 8,
                mv <= vn,
                vmeta@.len() == 8 * mv,
                vmeta@ == vm_bytes(g, mv as int),
                vsum@ == 2 * sum_lens_from1(g.vectors, vn),
                forall|k2: int| 1 <= k2 < vn ==> (#[trigger] g.vectors[k2]).len() <= u32::MAX,
                mv == 0 ==> vpos == vec1_off,
                mv >= 1 ==> vpos == vec1_off + 2 * sum_lens_from1(g.vectors, mv as int),
                vec1_off + vsum@ <= total@,
                total@ <= u32::MAX,
                ai + 16 <= total@,
                52 + 8 * dn + 8 * vn + 4 <= ai + 4,
                ai == encode_ai(g),
                vec1_off == encode_ai(g) + 18 + 4 * (string_table(g).len() as int) + 2
                    * sum_lens_from1(g.dictionaries, dn),
                ptrs@ == old(ptrs)@ + vm_slots(52 + 8 * dn, mv as int),
                crate::tool::ascending(ptrs@),
                ptrs@.len() > 0,
                ptrs@.last() < 52 + 8 * dn + 8 * (mv as int) + 4,
            decreases vn - mv,
        {
            let vec = self.get_vector(mv).unwrap();
            let l = vec.len();
            proof {
                lemma_sum_lens_mono(g.vectors, mv + 1, vn);
                if mv >= 1 {
                    assert(sum_lens_from1(g.vectors, mv + 1) == sum_lens_from1(
                        g.vectors,
                        mv as int,
                    ) + l);
                }
                lemma_sum_lens_mono(g.vectors, 0, mv as int);
            }
            let ghost pre = vmeta@;
            crate::tool::push_u32_le(&mut vmeta, l as u32);
            if mv == 0 {
                crate::tool::push_u32_le(&mut vmeta, (ai + 4 + 2 * dic0_len) as u32);
            } else {
                crate::tool::push_u32_le(&mut vmeta, vpos as u32);
                vpos = vpos + 2 * (l as u64);
            }
            proof {
                assert(vmeta@ =~= pre + crate::tool::u32_le_bytes(
                    g.vectors[mv as int].len() as u32,
                ) + crate::tool::u32_le_bytes(vec_entries_ptr(g, mv as int) as u32));
            }
            let slot: u32 = (52 + 8 * d_count + 8 * (mv as u64) + 4) as u32;
            proof {
                crate::tool::lemma_ascending_push(ptrs@, slot);
            }
            ptrs.push(slot);
            proof {
                assert(ptrs@ =~= old(ptrs)@ + vm_slots(52 + 8 * dn, mv + 1));
            }
            mv = mv + 1;
        }
        vmeta
    }

    /// Emit the entry lists of the dictionaries after the first,
    /// concatenated in order.
    fn emit_dict_lists(&self, kt: &Vec<(String, FlowDataValue)>) -> (r: Vec<u8>)
        requires
            self.wf(),
            self@.dictionaries.len() >= 1,
            kt.deep_view().len() <= 65536,
            distinct(kt.deep_view()),
            kt.deep_view() == keyval_table(self@),
            forall|k2: int, j2: int|
                0 <= k2 < self@.dictionaries.len() && 0 <= j2 < self@.dictionaries[k2].len()
                    ==> kt.deep_view().contains(#[trigger] self@.dictionaries[k2][j2]),
        ensures
            r@.len() == 2 * sum_lens_from1(self@.dictionaries, self@.dictionaries.len() as int),
            r@ == de_bytes(self@, self@.dictionaries.len() as int),
    {
        let ghost g = self@;
        let ghost dn = g.dictionaries.len() as int;
        let mut de: Vec<u8> = Vec::new();
        let mut di: usize = 1;
        while di < self.dictionary_len()
            invariant
                self.wf(),
                g == self@,
                dn == g.dictionaries.len(),
                dn >= 1,
                1 <= di <= dn,
                de@.len() == 2 * sum_lens_from1(g.dictionaries, di as int),
                de@ == de_bytes(g, di as int),
                kt.deep_view().len() <= 65536,
                distinct(kt.deep_view()),
                kt.deep_view() == keyval_table(g),
                forall|k2: int, j2: int|
                    0 <= k2 < g.dictionaries.len() && 0 <= j2 < g.dictionaries[k2].len()
                        ==> kt.deep_view().contains(#[trigger] g.dictionaries[k2][j2]),
            decreases dn - di,
        {
            let dic = self.get_dictionary(di).unwrap();
            let mut b = emit_dict_entries(kt, dic);
            let ghost pre = de@;
            let ghost bv = b@;
            de.append(&mut b);
            proof {
                assert(de@ =~= pre + bv);
            }
            di = di + 1;
        }
        de
    }

    /// Emit the element lists of the vectors after the first, concatenated
    /// in order.
    fn emit_vec_lists(&self, vt: &Vec<FlowDataValue>) -> (r: Vec<u8>)
        requires
            self.wf(),
            self@.vectors.len() >= 1,
            vt.deep_view().len() <= 65536,
            distinct(vt.deep_view()),
            vt.deep_view() == value_table(self@),
            forall|k2: int, j2: int|
                0 <= k2 < self@.vectors.len() && 0 <= j2 < self@.vectors[k2].len()
                    ==> vt.deep_view().contains(#[trigger] self@.vectors[k2][j2]),
        ensures
            r@.len() == 2 * sum_lens_from1(self@.vectors, self@.vectors.len() as int),
            r@ == ve_bytes(self@, self@.vectors.len() as int),
    {
        let ghost g = self@;
        let ghost vn = g.vectors.len() as int;
        let mut ve: Vec<u8> = Vec::new();
        let mut vi: usize = 1;
        while vi < self.vector_len()
            invariant
                self.wf(),
                g == self@,
                vn == g.vectors.len(),
                vn >= 1,
                1 <= vi <= vn,
                ve@.len() == 2 * sum_lens_from1(g.vectors, vi as int),
                ve@ == ve_bytes(g, vi as int),
                vt.deep_view().len() <= 65536,
                distinct(vt.deep_view()),
                vt.deep_view() == value_table(g),
                forall|k2: int, j2: int|
                    0 <= k2 < g.vectors.len() && 0 <= j2 < g.vectors[k2].len()
                        ==> vt.deep_view().contains(#[trigger] g.vectors[k2][j2]),
            decreases vn - vi,
        {
            let vec = self.get_vector(vi).unwrap();
            let mut b = emit_vec_entries(vt, vec);
            let ghost pre = ve@;
            let ghost bv = b@;
            ve.append(&mut b);
            proof {
                assert(ve@ =~= pre + bv);
            }
            vi = vi + 1;
        }
        ve
    }

    /// Build the encoder's three interning tables in one pass over the graph:
    /// the string table, the value table and the keyval table, each in
    /// first-seen order.
    ///
    /// Deduplication: each table holds every distinct item exactly once —
    /// no table holds an item twice, every key/value pair of every
    /// dictionary is in the keyval table, and every value of any dictionary
    /// or vector is in the value table — however many dictionaries share
    /// them.
    pub fn build_tables(&self) -> (r: (
        Vec<String>,
        Vec<FlowDataValue>,
        Vec<(String, FlowDataValue)>,
    ))
        requires
            self.wf(),
        ensures
            r.0.deep_view() == string_table(self@),
            r.1.deep_view() == value_table(self@),
            r.2.deep_view() == keyval_table(self@),
            distinct(r.0.deep_view()),
            distinct(r.1.deep_view()),
            distinct(r.2.deep_view()),
            tables_linked(r.0.deep_view(), r.1.deep_view(), r.2.deep_view()),
            forall|i: int, j: int|
                0 <= i < self@.dictionaries.len() && 0 <= j < self@.dictionaries[i].len()
                    ==> r.2.deep_view().contains(#[trigger] self@.dictionaries[i][j]),
            forall|i: int, j: int|
                0 <= i < self@.vectors.len() && 0 <= j < self@.vectors[i].len()
                    ==> r.1.deep_view().contains(#[trigger] self@.vectors[i][j]),
    {
        let mut st: Vec<String> = Vec::new();
        let mut vt: Vec<FlowDataValue> = Vec::new();
        let mut kt: Vec<(String, FlowDataValue)> = Vec::new();
        proof {
            assert(st.deep_view() =~= Seq::<Seq<char>>::empty());
            assert(vt.deep_view() =~= Seq::<FlowDataValueV>::empty());
            assert(kt.deep_view() =~= Seq::<(Seq<char>, FlowDataValueV)>::empty());
        }
        let mut i: usize = 0;
        while i < self.dictionary_len()
            invariant
                self.wf(),
                i <= self@.dictionaries.len(),
                st.deep_view() == st_after_dicts(
                    Seq::<Seq<char>>::empty(),
                    self@.dictionaries,
                    i as int,
                ),
                vt.deep_view() == vt_after_dicts(
                    Seq::<FlowDataValueV>::empty(),
                    self@.dictionaries,
                    i as int,
                ),
                kt.deep_view() == kt_after_dicts(
                    Seq::<(Seq<char>, FlowDataValueV)>::empty(),
                    self@.dictionaries,
                    i as int,
                ),
                distinct(st.deep_view()),
                distinct(vt.deep_view()),
                distinct(kt.deep_view()),
                tables_linked(st.deep_view(), vt.deep_view(), kt.deep_view()),
                forall|k: int, j: int|
                    0 <= k < i && 0 <= j < self@.dictionaries[k].len() ==> kt.deep_view().contains(
                        #[trigger] self@.dictionaries[k][j],
                    ),
            decreases self@.dictionaries.len() - i,
        {
            let dic = self.get_dictionary(i).unwrap();
            tables_add_dict(&mut st, &mut vt, &mut kt, dic);
            i = i + 1;
        }
        let ghost kt_final = kt.deep_view();
        let mut v: usize = 0;
        while v < self.vector_len()
            invariant
                self.wf(),
                v <= self@.vectors.len(),
                st.deep_view() == st_after_vecs(
                    st_after_dicts(
                        Seq::<Seq<char>>::empty(),
                        self@.dictionaries,
                        self@.dictionaries.len() as int,
                    ),
                    self@.vectors,
                    v as int,
                ),
                vt.deep_view() == vt_after_vecs(
                    vt_after_dicts(
                        Seq::<FlowDataValueV>::empty(),
                        self@.dictionaries,
                        self@.dictionaries.len() as int,
                    ),
                    self@.vectors,
                    v as int,
                ),
                kt.deep_view() == kt_final,
                kt_final == keyval_table(self@),
                distinct(st.deep_view()),
                distinct(vt.deep_view()),
                distinct(kt.deep_view()),
                tables_linked(st.deep_view(), vt.deep_view(), kt.deep_view()),
                forall|k: int, j: int|
                    0 <= k < self@.dictionaries.len() && 0 <= j < self@.dictionaries[k].len()
                        ==> kt.deep_view().contains(#[trigger] self@.dictionaries[k][j]),
                forall|k: int, j: int|
                    0 <= k < v && 0 <= j < self@.vectors[k].len() ==> vt.deep_view().contains(
                        #[trigger] self@.vectors[k][j],
                    ),
            decreases self@.vectors.len() - v,
        {
            let vec = self.get_vector(v).unwrap();
            let ghost st_pre = st.deep_view();
            let ghost vt_pre = vt.deep_view();
            tables_add_vec(&mut st, &mut vt, vec);
            proof {
                assert forall|j: int|
                    0 <= j < kt.deep_view().len() implies st.deep_view().contains(
                    (#[trigger] kt.deep_view()[j]).0,
                ) && vt.deep_view().contains(kt.deep_view()[j].1) by {
                    assert(st_pre.contains(kt.deep_view()[j].0));
                    assert(vt_pre.contains(kt.deep_view()[j].1));
                }
            }
            v = v + 1;
        }
        (st, vt, kt)
    }

    /// encode a binary flow file
    ///
    /// note that entry are automatically deduplicated.
    ///
    /// The sections are laid out exactly as the decoder expects them: header,
    /// dictionary and vector metadata, value table, keyval table, the
    /// additional-info block with the first dictionary's and vector's entries
    /// inline, the string-pointer table, the remaining entry lists, the raw
    /// string bytes, and the relocation footer. The graph must hold at least
    /// one dictionary and one vector, since the layout places both inline.
    /// Encoding fails exactly when the graph does not fit the container:
    /// when an interning table passes the 16-bit index width, when an
    /// offset passes the 32-bit range, or when the first dictionary's and
    /// vector's entry lists together pass the eight inline bytes of the
    /// additional-info block. On success every byte of the output is pinned down:
    /// the sections by [`container_facts`], the footer and trailing padding
    /// by the clauses below, and the total length exactly.
    #[verifier::rlimit(100)]
    pub fn write(&self) -> (r: Result<Vec<u8>, FlowDataError>)
        requires
            self.wf(),
            self@.dictionaries.len() >= 1,
            self@.vectors.len() >= 1,
        ensures
            match r {
                Ok(out) => encode_fits(self@) && out@.len() == encode_end(self@)
                    + crate::tool::footer_bytes_skip(ptr_slots(self@)).len() + 14
                    && container_facts(out@, self@) && out@.subrange(
                    encode_end(self@),
                    out@.len() as int,
                ) == crate::tool::footer_bytes_skip(ptr_slots(self@)) + Seq::new(
                    14,
                    |i: int| 0u8,
                ),
                Err(e) => e is TryFromIntError && !encode_fits(self@),
            },
    {
        let ghost g = self@;
        let d0_entries = self.get_dictionary(0).unwrap().len();
        let v0_entries = self.get_vector(0).unwrap().len();
        if d0_entries > 4 || v0_entries > 4 || 2 * d0_entries + 2 * v0_entries > 8 {
            return Err(FlowDataError::TryFromIntError);
        }
        let tables = self.build_tables();
        let st = tables.0;
        let vt = tables.1;
        let kt = tables.2;
        if st.len() > 65536 || vt.len() > 65536 || kt.len() > 65536 {
            return Err(FlowDataError::TryFromIntError);
        }
        let d_count: u64 = self.dictionary_len() as u64;
        let v_count: u64 = self.vector_len() as u64;
        let ghost dn = g.dictionaries.len() as int;
        let ghost vn = g.vectors.len() as int;
        let ghost stv = st.deep_view();
        // total entry bytes of the dictionaries after the first
        let mut dsum: u64 = 0;
        let mut i: usize = 1;
        while i < self.dictionary_len()
            invariant
                self.wf(),
                g == self@,
                dn == g.dictionaries.len(),
                vn == g.vectors.len(),
                dn >= 1,
                vn >= 1,
                1 <= i <= dn,
                dsum == 2 * sum_lens_from1(g.dictionaries, i as int),
                dsum <= u32::MAX,
                forall|k: int| 1 <= k < i ==> (#[trigger] g.dictionaries[k]).len() <= u32::MAX,
            decreases dn - i,
        {
            let dic = self.get_dictionary(i).unwrap();
            let l = dic.len();
            proof {
                lemma_overflow_bound(g, i as int, l as int);
            }
            if l as u64 > 0xFFFF_FFFF || dsum + 2 * (l as u64) > 0xFFFF_FFFF {
                return Err(FlowDataError::TryFromIntError);
            }
            dsum = dsum + 2 * (l as u64);
            i = i + 1;
        }
        // total entry bytes of the vectors after the first
        let mut vsum: u64 = 0;
        let mut iv: usize = 1;
        while iv < self.vector_len()
            invariant
                self.wf(),
                g == self@,
                dn == g.dictionaries.len(),
                vn == g.vectors.len(),
                dn >= 1,
                vn >= 1,
                1 <= iv <= vn,
                vsum == 2 * sum_lens_from1(g.vectors, iv as int),
                vsum <= u32::MAX,
                forall|k: int| 1 <= k < iv ==> (#[trigger] g.vectors[k]).len() <= u32::MAX,
            decreases vn - iv,
        {
            let vec = self.get_vector(iv).unwrap();
            let l = vec.len();
            proof {
                lemma_overflow_bound_vecs(g, iv as int, l as int);
            }
            if l as u64 > 0xFFFF_FFFF || vsum + 2 * (l as u64) > 0xFFFF_FFFF {
                return Err(FlowDataError::TryFromIntError);
            }
            vsum = vsum + 2 * (l as u64);
            iv = iv + 1;
        }
        // total byte length of the string pool
        let mut sbytes: u64 = 0;
        let mut k: usize = 0;
        while k < st.len()
            invariant
                g == self@,
                dn == g.dictionaries.len(),
                vn == g.vectors.len(),
                stv == st.deep_view(),
                stv == string_table(g),
                k <= stv.len(),
                stv.len() == st@.len(),
                sbytes == st_bytes_len(stv, k as int),
                sbytes <= u32::MAX,
            decreases st@.len() - k,
        {
            let sbytes_k = st[k].as_str().as_bytes();
            let l = sbytes_k.len();
            proof {
                assert(stv[k as int] == st@[k as int]@);
                assert(sbytes_k@ == vstd::utf8::encode_utf8(stv[k as int]));
                assert(l == vstd::utf8::encode_utf8(stv[k as int]).len());
                lemma_overflow_bound_strings(g, k as int, l as int);
            }
            if l as u64 > 0xFFFF_FFFF || sbytes + (l as u64) + 1 > 0xFFFF_FFFF {
                return Err(FlowDataError::TryFromIntError);
            }
            sbytes = sbytes + (l as u64) + 1;
            k = k + 1;
        }
        let vt_len = vt.len() as u64;
        let kt_len = kt.len() as u64;
        let s_len = st.len() as u64;
        let ai: u64 = 52 + 8 * d_count + 8 * v_count + 4 * vt_len + 4 * kt_len;
        let strptr_off: u64 = ai + 18;
        let dict1_off: u64 = strptr_off + 4 * s_len;
        let vec1_off: u64 = dict1_off + dsum;
        let sd: u64 = vec1_off + vsum + 2;
        let end: u64 = sd + sbytes;
        proof {
            assert(ai == encode_ai(g));
            assert(sd == encode_strings_off(g));
            assert(end == encode_end(g));
        }
        if end > 0xFFFF_FFFF {
            return Err(FlowDataError::TryFromIntError);
        }
        proof {
            lemma_sum_lens_mono(g.dictionaries, 1, dn);
            lemma_sum_lens_mono(g.vectors, 1, vn);
            lemma_st_bytes_mono(stv, 0, stv.len() as int);
        }
        // pointer slots of the eight back-patched header fields
        let mut ptrs: Vec<u32> = Vec::new();
        ptrs.push(4);
        ptrs.push(8);
        ptrs.push(20);
        ptrs.push(28);
        ptrs.push(36);
        ptrs.push(40);
        ptrs.push(44);
        ptrs.push(48);
        proof {
            assert(ptrs@ =~= seq![4u32, 8u32, 20u32, 28u32, 36u32, 40u32, 44u32, 48u32]);
            assert(crate::tool::ascending(ptrs@));
        }
        let out = emit_header(
            end as u32,
            self.unknown1,
            ai as u32,
            d_count as u32,
            v_count as u32,
            (52 + 8 * d_count) as u32,
            strptr_off as u32,
            (52 + 8 * d_count + 8 * v_count) as u32,
            (52 + 8 * d_count + 8 * v_count + 4 * vt_len) as u32,
        );
        // dictionary and vector metadata, with their pointer slots
        let dmeta = self.emit_dict_meta(ai, dict1_off, Ghost(dsum), Ghost(end), &mut ptrs);
        let dic0_len: u64 = self.get_dictionary(0).unwrap().len() as u64;
        let vmeta = self.emit_vec_meta(
            ai,
            dic0_len,
            vec1_off,
            Ghost(vsum),
            Ghost(end),
            &mut ptrs,
        );
        // value and keyval tables
        let valtab = emit_value_table(&st, &vt);
        let kvtab = emit_keyval_table(&st, &vt, &kt);
        // additional-info block with the first entry lists inline
        let dic0 = self.get_dictionary(0).unwrap();
        let vec0 = self.get_vector(0).unwrap();
        let aib = emit_ai_block(self.unknown2, (v_count - 1) as u16, &kt, dic0, &vt, vec0, sd
            as u32);
        // string-pointer table, with its pointer slots
        let sp = emit_strptrs(&st, sd, strptr_off, Ghost(end), &mut ptrs);
        // entry lists of the dictionaries and vectors after the first
        let de = self.emit_dict_lists(&kt);
        let ve = self.emit_vec_lists(&vt);
        // raw string bytes
        let strsec = emit_strings(&st);
        // assemble every section in layout order
        proof {
            assert(aib@ =~= ai_bytes(g));
            assert(ptrs@ =~= ptr_slots(g));
        }
        let assembled = assemble_container(
            out,
            dmeta,
            vmeta,
            valtab,
            kvtab,
            aib,
            sp,
            de,
            ve,
            strsec,
            ptrs,
            Ghost(g),
            end,
            ai,
            sd,
            d_count,
            v_count,
            vt_len,
        );
        Ok(assembled)
    }

    /// decode a binary flow file
    ///
    /// The whole container is parsed from the byte store: on success the
    /// returned graph is exactly what [`spec_decode`] gives for these bytes,
    /// and on failure the error is exactly the one it gives. No partial
    /// graph escapes: the graph is built locally and returned only on full
    /// success.
    #[verifier::rlimit(100)]
    pub fn new(data: &[u8]) -> (r: Result<FlowData, FlowDataError>)
        ensures
            match r {
                Ok(g) => spec_decode(data@) == Ok::<FlowDataV, FlowDataErrorV>(g@) && g.wf(),
                Err(e) => spec_decode(data@) == Err::<FlowDataV, FlowDataErrorV>(e@),
            },
    {
        let mut flowdata = FlowData::default();
        let h = match read_header(data) {
            Ok(h) => h,
            Err(e) => {
                return Err(e);
            },
        };
        flowdata.unknown1 = h.unknown1;
        flowdata.unknown2 = h.unknown2;
        let mut latest: u32 = 0;
        let mut i: u32 = 0;
        while i < h.dic_count
            invariant
                spec_parse_header(data@) == Ok::<SectionTable, FlowDataErrorV>(h),
                i <= h.dic_count,
                flowdata.wf(),
                flowdata@.unknown1 == h.unknown1,
                flowdata@.unknown2 == h.unknown2,
                flowdata@.vectors == Seq::<Seq<FlowDataValueV>>::empty(),
                flowdata@.dictionaries.len() == i,
                flowdata@.idnames == idnames_fold(flowdata@.dictionaries),
                flowdata@.backlink_dictionaries == bd_fold_dicts(flowdata@.dictionaries),
                flowdata@.backlink_vector == bv_fold_dicts(flowdata@.dictionaries),
                spec_parse_dicts(data@, h, 0, 0) == (match spec_parse_dicts(
                    data@,
                    h,
                    i as int,
                    latest,
                ) {
                    Ok(rest) => Ok::<_, FlowDataErrorV>(flowdata@.dictionaries + rest),
                    Err(e) => Err::<Seq<Seq<(Seq<char>, FlowDataValueV)>>, _>(e),
                }),
            decreases h.dic_count - i,
        {
            let ghost old_latest = latest;
            let rpos = h.dic_section_ptr as u64 + 8 * i as u64;
            let dic_size = match ru32(data, rpos) {
                Ok(v) => v,
                Err(e) => {
                    return Err(e);
                },
            };
            let dic_ptr = match ru32(data, rpos + 4) {
                Ok(v) => v,
                Err(e) => {
                    return Err(e);
                },
            };
            if latest > dic_ptr {
                return Err(FlowDataError::NonMonotonicPointer(latest, dic_ptr));
            }
            let dic = match read_dict_at(data, &h, dic_ptr, dic_size) {
                Ok(d) => d,
                Err(e) => {
                    return Err(e);
                },
            };
            let ghost pairs = spec_parse_dict_entries(
                data@,
                h,
                dic_ptr,
                dic_size,
                0,
            )->Ok_0;
            latest = dic_ptr;
            let ghost dicv = dic@;
            let ghost dicts_before = flowdata@.dictionaries;
            match flowdata.push_dictionary(dic) {
                Ok(_) => {},
                Err(e) => {
                    proof {
                        assert(spec_parse_dicts(data@, h, i as int, old_latest) == Err::<
                            Seq<Seq<(Seq<char>, FlowDataValueV)>>,
                            _,
                        >(e@));
                    }
                    return Err(e);
                },
            }
            proof {
                lemma_idnames_fold_push(dicts_before, dicv);
                lemma_bd_fold_dicts_push(dicts_before, dicv);
                lemma_bv_fold_dicts_push(dicts_before, dicv);
                lemma_dicts_advance(
                    data@,
                    h,
                    i as int,
                    old_latest,
                    dic_ptr,
                    dicts_before,
                    dicv,
                );
                assert(flowdata@.dictionaries == dicts_before.push(dicv));
            }
            i = i + 1;
        }
        proof {
            assert(spec_parse_dicts(data@, h, h.dic_count as int, latest) == Ok::<
                Seq<Seq<(Seq<char>, FlowDataValueV)>>,
                FlowDataErrorV,
            >(Seq::empty()));
            assert(flowdata@.dictionaries + Seq::<Seq<(Seq<char>, FlowDataValueV)>>::empty()
                =~= flowdata@.dictionaries);
        }
        let ghost dicts = flowdata@.dictionaries;
        let ghost bd_after_dicts = flowdata@.backlink_dictionaries;
        let mut vec_id: u32 = 0;
        while vec_id < h.vec_count
            invariant
                spec_parse_header(data@) == Ok::<SectionTable, FlowDataErrorV>(h),
                spec_parse_dicts(data@, h, 0, 0) == Ok::<
                    Seq<Seq<(Seq<char>, FlowDataValueV)>>,
                    FlowDataErrorV,
                >(dicts),
                vec_id <= h.vec_count,
                flowdata.wf(),
                flowdata@.unknown1 == h.unknown1,
                flowdata@.unknown2 == h.unknown2,
                flowdata@.dictionaries == dicts,
                dicts.len() == h.dic_count,
                flowdata@.vectors.len() == vec_id,
                flowdata@.idnames == idnames_fold(dicts),
                flowdata@.backlink_vector == bv_fold_dicts(dicts),
                bd_after_dicts == bd_fold_dicts(dicts),
                flowdata@.backlink_dictionaries == bd_fold_vecs(
                    bd_after_dicts,
                    flowdata@.vectors,
                    h.dic_count as u16,
                ),
                spec_parse_vecs(data@, h, 0) == (match spec_parse_vecs(data@, h, vec_id as int) {
                    Ok(rest) => Ok::<_, FlowDataErrorV>(flowdata@.vectors + rest),
                    Err(e) => Err::<Seq<Seq<FlowDataValueV>>, _>(e),
                }),
            decreases h.vec_count - vec_id,
        {
            let rpos = h.vec_section_ptr as u64 + 8 * vec_id as u64;
            let vec_size = match ru32(data, rpos) {
                Ok(v) => v,
                Err(e) => {
                    return Err(e);
                },
            };
            let vec_ptr = match ru32(data, rpos + 4) {
                Ok(v) => v,
                Err(e) => {
                    return Err(e);
                },
            };
            let vec = match read_vec_at(data, &h, vec_ptr, vec_size) {
                Ok(v) => v,
                Err(e) => {
                    return Err(e);
                },
            };
            let ghost vecv = vec.deep_view();
            let ghost vecs_before = flowdata@.vectors;
            match flowdata.push_vector(vec) {
                Ok(_) => {},
                Err(e) => {
                    proof {
                        assert(spec_parse_vecs(data@, h, vec_id as int) == Err::<
                            Seq<Seq<FlowDataValueV>>,
                            _,
                        >(e@));
                    }
                    return Err(e);
                },
            }
            proof {
                lemma_bd_fold_vecs_push(bd_after_dicts, vecs_before, vecv, h.dic_count as u16);
                assert(flowdata@.vectors =~= vecs_before.push(vecv));
                lemma_vecs_advance(data@, h, vec_id as int, vecs_before, vecv);
            }
            vec_id = vec_id + 1;
        }
        proof {
            assert(spec_parse_vecs(data@, h, h.vec_count as int) == Ok::<
                Seq<Seq<FlowDataValueV>>,
                FlowDataErrorV,
            >(Seq::empty()));
            assert(flowdata@.vectors + Seq::<Seq<FlowDataValueV>>::empty() =~= flowdata@.vectors);
            assert(spec_decode(data@) matches Ok(v) && v =~= flowdata@);
        }
        Ok(flowdata)
    }
}

} // verus!
