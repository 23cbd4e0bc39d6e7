//! The document model: an ordered tree of mappings, sequences and scalar
//! leaves, as loaded from a YAML text, together with its mathematical view
//! and the ordered-mapping operations the expansion engine works with.

use vstd::prelude::*;

verus! {

/// Mathematical view of a document node. Mapping entries and sequence
/// elements keep their order; scalar text is a sequence of characters.
#[verifier::ext_equal]
pub enum Doc {
    Null,
    Bool(bool),
    /// A numeric scalar, carried as its decimal text.
    Num(Seq<char>),
    Str(Seq<char>),
    List(Seq<Doc>),
    Mapping(Seq<(Seq<char>, Doc)>),
}

/// An executable document node. Mappings are ordered association vectors
/// with string keys; a numeric scalar keeps the decimal text it was read
/// with, so that it can be written back unchanged.
#[derive(Debug, PartialEq, Eq)]
pub enum Yaml {
    Null,
    Bool(bool),
    Num(String),
    Str(String),
    List(Vec<Yaml>),
    Mapping(Vec<(String, Yaml)>),
}

impl Yaml {
    /// The mathematical view of this node.
    pub open spec fn doc(self) -> Doc
        decreases self,
    {
        match self {
            Yaml::Null => Doc::Null,
            Yaml::Bool(b) => Doc::Bool(b),
            Yaml::Num(s) => Doc::Num(s@),
            Yaml::Str(s) => Doc::Str(s@),
            Yaml::List(v) => Doc::List(docs_of(v@)),
            Yaml::Mapping(v) => Doc::Mapping(entries_doc(v@)),
        }
    }
}

/// Views of a vector of strings, element by element.
pub open spec fn strs_view(s: Seq<String>) -> Seq<Seq<char>> {
    Seq::new(s.len(), |i: int| s[i]@)
}

/// View of an executable sequence body, element by element.
pub open spec fn docs_of(s: Seq<Yaml>) -> Seq<Doc>
    decreases s,
{
    if s.len() == 0 {
        Seq::empty()
    } else {
        docs_of(s.drop_last()).push(s.last().doc())
    }
}

/// View of an executable mapping body as a sequence of (key, value) pairs.
pub open spec fn entries_doc(s: Seq<(String, Yaml)>) -> Seq<(Seq<char>, Doc)>
    decreases s,
{
    if s.len() == 0 {
        Seq::empty()
    } else {
        entries_doc(s.drop_last()).push((s.last().0@, s.last().1.doc()))
    }
}

pub broadcast proof fn lemma_docs_of_len(s: Seq<Yaml>)
    ensures
        #[trigger] docs_of(s).len() == s.len(),
    decreases s,
{
    if s.len() > 0 {
        lemma_docs_of_len(s.drop_last());
    }
}

pub broadcast proof fn lemma_docs_of_index(s: Seq<Yaml>, i: int)
    requires
        0 <= i < s.len(),
    ensures
        #[trigger] docs_of(s)[i] == s[i].doc(),
    decreases s,
{
    lemma_docs_of_len(s.drop_last());
    if i < s.len() - 1 {
        lemma_docs_of_index(s.drop_last(), i);
    }
}

pub broadcast proof fn lemma_entries_doc_len(s: Seq<(String, Yaml)>)
    ensures
        #[trigger] entries_doc(s).len() == s.len(),
    decreases s,
{
    if s.len() > 0 {
        lemma_entries_doc_len(s.drop_last());
    }
}

pub broadcast proof fn lemma_entries_doc_index(s: Seq<(String, Yaml)>, i: int)
    requires
        0 <= i < s.len(),
    ensures
        #[trigger] entries_doc(s)[i] == (s[i].0@, s[i].1.doc()),
    decreases s,
{
    lemma_entries_doc_len(s.drop_last());
    if i < s.len() - 1 {
        lemma_entries_doc_index(s.drop_last(), i);
    }
}

/// Index of the first entry with key `k`, or -1 when no entry has it.
pub open spec fn key_idx<V>(s: Seq<(Seq<char>, V)>, k: Seq<char>) -> int
    decreases s.len(),
{
    if s.len() == 0 {
        -1
    } else if s[0].0 == k {
        0
    } else if key_idx(s.skip(1), k) == -1 {
        -1
    } else {
        key_idx(s.skip(1), k) + 1
    }
}

/// Whether some entry has key `k`.
pub open spec fn has_key<V>(s: Seq<(Seq<char>, V)>, k: Seq<char>) -> bool {
    key_idx(s, k) >= 0
}

/// The value of the first entry with key `k`.
pub open spec fn lookup<V>(s: Seq<(Seq<char>, V)>, k: Seq<char>) -> V {
    s[key_idx(s, k)].1
}

/// Replace the value at key `k` in place, or append a new entry: the
/// insertion discipline of an order-preserving mapping.
pub open spec fn set_key<V>(s: Seq<(Seq<char>, V)>, k: Seq<char>, v: V) -> Seq<(Seq<char>, V)> {
    if has_key(s, k) {
        s.update(key_idx(s, k), (k, v))
    } else {
        s.push((k, v))
    }
}

/// Remove the first entry with key `k`, keeping the order of the rest.
pub open spec fn remove_key<V>(s: Seq<(Seq<char>, V)>, k: Seq<char>) -> Seq<(Seq<char>, V)> {
    if has_key(s, k) {
        s.remove(key_idx(s, k))
    } else {
        s
    }
}

/// `key_idx` finds exactly the first entry with the given key.
pub proof fn lemma_key_idx<V>(s: Seq<(Seq<char>, V)>, k: Seq<char>)
    ensures
        key_idx(s, k) == -1 ==> forall|j: int| 0 <= j < s.len() ==> s[j].0 != k,
        key_idx(s, k) != -1 ==> 0 <= key_idx(s, k) < s.len() && s[key_idx(s, k)].0 == k
            && forall|j: int| 0 <= j < key_idx(s, k) ==> s[j].0 != k,
    decreases s.len(),
{
    if s.len() == 0 {
    } else if s[0].0 == k {
    } else {
        let t = s.skip(1);
        lemma_key_idx(t, k);
        let r = key_idx(t, k);
        if r == -1 {
            assert forall|j: int| 0 <= j < s.len() implies s[j].0 != k by {
                if j > 0 {
                    assert(t[j - 1] == s[j]);
                }
            }
        } else {
            assert(key_idx(s, k) == r + 1);
            assert(s[r + 1] == t[r]);
            assert forall|j: int| 0 <= j < r + 1 implies s[j].0 != k by {
                if j > 0 {
                    assert(t[j - 1] == s[j]);
                }
            }
        }
    }
}

/// `key_idx` looks at keys alone.
pub proof fn lemma_key_idx_same_keys<V>(a: Seq<(Seq<char>, V)>, b: Seq<(Seq<char>, V)>, k: Seq<char>)
    requires
        a.len() == b.len(),
        forall|i: int| 0 <= i < a.len() ==> a[i].0 == b[i].0,
    ensures
        key_idx(a, k) == key_idx(b, k),
    decreases a.len(),
{
    if a.len() > 0 {
        assert(a[0].0 == b[0].0);
        if a[0].0 != k {
            lemma_key_idx_same_keys(a.skip(1), b.skip(1), k);
            assert forall|i: int| 0 <= i < a.skip(1).len() implies a.skip(1)[i].0 == b.skip(
                1,
            )[i].0 by {
                assert(a.skip(1)[i] == a[i + 1]);
                assert(b.skip(1)[i] == b[i + 1]);
            }
        }
    }
}

/// `key_idx` after a push: an absent key is found at the pushed entry, a
/// present key where it was.
pub proof fn lemma_key_idx_push<V>(s: Seq<(Seq<char>, V)>, k: Seq<char>, e: (Seq<char>, V))
    ensures
        has_key(s, k) ==> key_idx(s.push(e), k) == key_idx(s, k),
        !has_key(s, k) && e.0 == k ==> key_idx(s.push(e), k) == s.len(),
        !has_key(s, k) && e.0 != k ==> key_idx(s.push(e), k) == -1,
    decreases s.len(),
{
    if s.len() == 0 {
        assert(s.push(e)[0] == e);
        assert(s.push(e).skip(1) =~= Seq::<(Seq<char>, V)>::empty());
        assert(key_idx(s.push(e).skip(1), k) == -1);
        if e.0 != k {
            assert(key_idx(s.push(e), k) == -1);
        }
    } else {
        lemma_key_idx_push(s.skip(1), k, e);
        assert(s.skip(1).push(e) =~= s.push(e).skip(1));
        assert(s.push(e)[0] == s[0]);
        if !has_key(s, k) {
            assert(s[0].0 != k);
            lemma_key_idx(s.skip(1), k);
            assert(key_idx(s.skip(1), k) == -1);
            assert(!has_key(s.skip(1), k));
            if e.0 != k {
                assert(key_idx(s.skip(1).push(e), k) == -1);
                assert(key_idx(s.push(e).skip(1), k) == -1);
                assert(key_idx(s.push(e), k) == -1);
            }
        }
    }
}

/// What `set_key` does to every later lookup: the set key holds the new
/// value; every other key is untouched.
pub proof fn lemma_set_key<V>(s: Seq<(Seq<char>, V)>, k: Seq<char>, v: V, k2: Seq<char>)
    ensures
        has_key(set_key(s, k, v), k),
        lookup(set_key(s, k, v), k) == v,
        k2 != k ==> has_key(set_key(s, k, v), k2) == has_key(s, k2),
        k2 != k && has_key(s, k2) ==> lookup(set_key(s, k, v), k2) == lookup(s, k2),
{
    lemma_key_idx(s, k);
    lemma_key_idx(s, k2);
    let u = set_key(s, k, v);
    if has_key(s, k) {
        let ki = key_idx(s, k);
        assert forall|i: int| 0 <= i < s.len() implies u[i].0 == s[i].0 by {}
        lemma_key_idx_same_keys(u, s, k);
        lemma_key_idx_same_keys(u, s, k2);
        assert(lookup(u, k) == u[ki].1);
        if k2 != k && has_key(s, k2) {
            lemma_key_idx(u, k2);
            assert(s[key_idx(s, k2)].0 == k2);
            assert(key_idx(s, k2) != ki);
        }
    } else {
        lemma_key_idx_push(s, k, (k, v));
        lemma_key_idx_push(s, k2, (k, v));
        assert(u[s.len() as int] == (k, v));
        if k2 != k && has_key(s, k2) {
            lemma_key_idx(u, k2);
            assert(u[key_idx(s, k2)] == s[key_idx(s, k2)]);
        }
    }
}

/// Two mapping bodies whose pairs agree pointwise have the same view.
pub proof fn lemma_entries_doc_pointwise(a: Seq<(String, Yaml)>, b: Seq<(Seq<char>, Doc)>)
    requires
        b.len() == a.len(),
        forall|i: int| 0 <= i < a.len() ==> b[i] == (a[i].0@, a[i].1.doc()),
    ensures
        entries_doc(a) == b,
{
    broadcast use {lemma_entries_doc_len, lemma_entries_doc_index};

    assert(entries_doc(a) =~= b);
}

/// Two sequence bodies whose elements agree pointwise have the same view.
pub proof fn lemma_docs_of_pointwise(a: Seq<Yaml>, b: Seq<Doc>)
    requires
        b.len() == a.len(),
        forall|i: int| 0 <= i < a.len() ==> b[i] == a[i].doc(),
    ensures
        docs_of(a) == b,
{
    broadcast use {lemma_docs_of_len, lemma_docs_of_index};

    assert(docs_of(a) =~= b);
}

/// Equality of two string slices, decided character by character.
pub fn str_eq(a: &str, b: &str) -> (r: bool)
    ensures
        r == (a@ == b@),
{
    let la = a.unicode_len();
    let lb = b.unicode_len();
    if la != lb {
        return false;
    }
    let mut i: usize = 0;
    while i < la
        invariant
            i <= la,
            la == a@.len(),
            la == b@.len(),
            forall|j: int| 0 <= j < i ==> a@[j] == b@[j],
        decreases la - i,
    {
        if a.get_char(i) != b.get_char(i) {
            return false;
        }
        i += 1;
    }
    proof {
        assert(a@ =~= b@);
    }
    true
}

/// Whether `s` begins with `prefix`.
pub fn str_starts_with(s: &str, prefix: &str) -> (r: bool)
    ensures
        r == (s@.len() >= prefix@.len() && s@.take(prefix@.len() as int) == prefix@),
{
    let n = s.unicode_len();
    let m = prefix.unicode_len();
    if n < m {
        return false;
    }
    let head = s.substring_char(0, m);
    let r = str_eq(head, prefix);
    proof {
        assert(s@.subrange(0, m as int) =~= s@.take(m as int));
    }
    r
}

/// Position of the first entry of `entries` whose key is `key`.
pub fn map_find(entries: &Vec<(String, Yaml)>, key: &str) -> (r: Option<usize>)
    ensures
        match r {
            Some(i) => i == key_idx(entries_doc(entries@), key@) && i < entries@.len()
                && entries@[i as int].0@ == key@,
            None => key_idx(entries_doc(entries@), key@) == -1,
        },
{
    proof {
        broadcast use {lemma_entries_doc_len, lemma_entries_doc_index};

        lemma_key_idx(entries_doc(entries@), key@);
    }
    let n = entries.len();
    let mut i: usize = 0;
    while i < n
        invariant
            i <= n,
            n == entries@.len(),
            forall|j: int| 0 <= j < i ==> entries_doc(entries@)[j].0 != key@,
        decreases n - i,
    {
        if str_eq(entries[i].0.as_str(), key) {
            proof {
                broadcast use {lemma_entries_doc_len, lemma_entries_doc_index};

                let s = entries_doc(entries@);
                lemma_key_idx(s, key@);
                let ki = key_idx(s, key@);
                assert(s[i as int].0 == key@);
                assert(ki != -1);
                assert(!(ki < i as int));
                assert(!(ki > i as int)) by {
                    if ki > i as int {
                        assert(s[i as int].0 != key@);
                    }
                }
            }
            return Some(i);
        }
        proof {
            broadcast use {lemma_entries_doc_len, lemma_entries_doc_index};

            assert(entries_doc(entries@)[i as int].0 == entries@[i as int].0@);
        }
        i += 1;
    }
    None
}

/// The value of the first entry of `entries` whose key is `key`.
pub fn map_get<'a>(entries: &'a Vec<(String, Yaml)>, key: &str) -> (r: Option<&'a Yaml>)
    ensures
        match r {
            Some(v) => has_key(entries_doc(entries@), key@) && v.doc() == lookup(
                entries_doc(entries@),
                key@,
            ),
            None => !has_key(entries_doc(entries@), key@),
        },
{
    match map_find(entries, key) {
        Some(i) => {
            proof {
                broadcast use {lemma_entries_doc_len, lemma_entries_doc_index};

            }
            Some(&entries[i].1)
        },
        None => None,
    }
}

/// Give `key` the value `val` in a mapping body: an existing entry keeps its
/// position and has its value replaced; otherwise a new entry is appended.
pub fn map_set(entries: &mut Vec<(String, Yaml)>, key: &str, val: Yaml)
    ensures
        entries_doc(final(entries)@) == set_key(entries_doc(old(entries)@), key@, val.doc()),
{
    let ghost s0 = entries_doc(old(entries)@);
    match map_find(entries, key) {
        Some(i) => {
            let (k0, _) = entries.remove(i);
            entries.insert(i, (k0, val));
            proof {
                broadcast use {lemma_entries_doc_len, lemma_entries_doc_index};

                assert(entries@ =~= old(entries)@.update(i as int, (old(entries)@[i as int].0, val)));
                lemma_entries_doc_pointwise(entries@, s0.update(i as int, (key@, val.doc())));
            }
        },
        None => {
            entries.push((key.to_owned(), val));
            proof {
                broadcast use {lemma_entries_doc_len, lemma_entries_doc_index};

                lemma_entries_doc_pointwise(entries@, s0.push((key@, val.doc())));
            }
        },
    }
}

/// Remove the first entry with key `key` from a mapping body, if any.
pub fn map_remove(entries: &mut Vec<(String, Yaml)>, key: &str)
    ensures
        entries_doc(final(entries)@) == remove_key(entries_doc(old(entries)@), key@),
{
    let ghost s0 = entries_doc(old(entries)@);
    match map_find(entries, key) {
        Some(i) => {
            entries.remove(i);
            proof {
                broadcast use {lemma_entries_doc_len, lemma_entries_doc_index};

                lemma_entries_doc_pointwise(entries@, s0.remove(i as int));
            }
        },
        None => {},
    }
}

impl Yaml {
    /// A structurally identical copy of this node.
    pub fn deep_copy(&self) -> (r: Yaml)
        ensures
            r.doc() == self.doc(),
        decreases *self,
    {
        match self {
            Yaml::Null => Yaml::Null,
            Yaml::Bool(b) => Yaml::Bool(*b),
            Yaml::Num(s) => Yaml::Num(s.clone()),
            Yaml::Str(s) => Yaml::Str(s.clone()),
            Yaml::List(v) => {
                let mut out: Vec<Yaml> = Vec::new();
                let n = v.len();
                let mut i: usize = 0;
                while i < n
                    invariant
                        i <= n,
                        n == v@.len(),
                        out@.len() == i,
                        forall|j: int| 0 <= j < i ==> out@[j].doc() == v@[j].doc(),
                        *self == Yaml::List(*v),
                    decreases n - i,
                {
                    proof {
                        assert(decreases_to!(*self => v@[i as int])) by {
                            assert((*self)->List_0 == *v);
                            assert(decreases_to!(*self => (*self)->List_0));
                            assert(decreases_to!(*v => v@));
                            assert(decreases_to!(v@ => v@[i as int]));
                        }
                    }
                    out.push(v[i].deep_copy());
                    i += 1;
                }
                proof {
                    broadcast use {lemma_docs_of_len, lemma_docs_of_index};

                    lemma_docs_of_pointwise(out@, docs_of(v@));
                }
                Yaml::List(out)
            },
            Yaml::Mapping(v) => {
                let mut out: Vec<(String, Yaml)> = Vec::new();
                let n = v.len();
                let mut i: usize = 0;
                while i < n
                    invariant
                        i <= n,
                        n == v@.len(),
                        out@.len() == i,
                        forall|j: int| 0 <= j < i ==> out@[j].0@ == v@[j].0@
                            && out@[j].1.doc() == v@[j].1.doc(),
                        *self == Yaml::Mapping(*v),
                    decreases n - i,
                {
                    proof {
                        assert(decreases_to!(*self => v@[i as int].1)) by {
                            assert((*self)->Mapping_0 == *v);
                            assert(decreases_to!(*self => (*self)->Mapping_0));
                            assert(decreases_to!(*v => v@));
                            assert(decreases_to!(v@ => v@[i as int]));
                            assert(decreases_to!(v@[i as int] => v@[i as int].1));
                        }
                    }
                    let e = &v[i];
                    out.push((e.0.clone(), e.1.deep_copy()));
                    i += 1;
                }
                proof {
                    broadcast use {lemma_entries_doc_len, lemma_entries_doc_index};

                    lemma_entries_doc_pointwise(out@, entries_doc(v@));
                }
                Yaml::Mapping(out)
            },
        }
    }
}

/// A structurally identical copy of a mapping body.
pub fn copy_entries(v: &Vec<(String, Yaml)>) -> (r: Vec<(String, Yaml)>)
    ensures
        entries_doc(r@) == entries_doc(v@),
{
    let mut out: Vec<(String, Yaml)> = Vec::new();
    let n = v.len();
    let mut i: usize = 0;
    while i < n
        invariant
            i <= n,
            n == v@.len(),
            out@.len() == i,
            forall|j: int| 0 <= j < i ==> out@[j].0@ == v@[j].0@ && out@[j].1.doc()
                == v@[j].1.doc(),
        decreases n - i,
    {
        let e = &v[i];
        out.push((e.0.clone(), e.1.deep_copy()));
        i += 1;
    }
    proof {
        broadcast use {lemma_entries_doc_len, lemma_entries_doc_index};

        lemma_entries_doc_pointwise(out@, entries_doc(v@));
    }
    out
}

/// A text that cannot be read as a structured document.
#[derive(Debug, PartialEq, Eq)]
pub struct ParseError;

#[verifier::external_type_specification]
#[verifier::external_body]
pub struct ExValue(serde_yaml::Value);

#[verifier::external_type_specification]
#[verifier::external_body]
pub struct ExMapping(serde_yaml::Mapping);

/// Whether a text parses as a structured document: a YAML text whose root
/// is a mapping, in which every mapping key is a string scalar and no
/// tagged value occurs. What a fixed text parses to is a function of that
/// text alone.
pub uninterp spec fn yaml_document(text: Seq<char>) -> bool;

/// The document a structured text parses to. Meaningful only on texts that
/// satisfy `yaml_document`; like parsing itself, it depends on the text
/// alone.
pub uninterp spec fn parsed_doc(text: Seq<char>) -> Doc;

/// Relies on serde_yaml::Value::as_str and the Value variants: converts a
/// parsed node, one variant per arm; rejects what the model cannot carry.
#[verifier::external_body]
fn value_to_yaml(v: &serde_yaml::Value) -> Option<Yaml> {
    match v {
        serde_yaml::Value::Null => Some(Yaml::Null),
        serde_yaml::Value::Bool(b) => Some(Yaml::Bool(*b)),
        serde_yaml::Value::Number(n) => Some(Yaml::Num(n.to_string())),
        serde_yaml::Value::String(s) => Some(Yaml::Str(s.clone())),
        serde_yaml::Value::Sequence(s) => seq_to_yaml(s),
        serde_yaml::Value::Mapping(m) => mapping_to_yaml(m),
        serde_yaml::Value::Tagged(_) => None,
    }
}

/// Relies on iteration over a parsed sequence: converts element by element.
#[verifier::external_body]
fn seq_to_yaml(s: &Vec<serde_yaml::Value>) -> Option<Yaml> {
    let mut out: Vec<Yaml> = Vec::new();
    for v in s {
        out.push(value_to_yaml(v)?);
    }
    Some(Yaml::List(out))
}

/// Relies on serde_yaml::Mapping iteration keeping entry order: converts
/// entry by entry, string keys only.
#[verifier::external_body]
fn mapping_to_yaml(m: &serde_yaml::Mapping) -> Option<Yaml> {
    let mut out: Vec<(String, Yaml)> = Vec::new();
    for (k, v) in m {
        out.push((k.as_str()?.to_owned(), value_to_yaml(v)?));
    }
    Some(Yaml::Mapping(out))
}

/// Relies on serde_yaml::from_str: whether a text parses, and what tree it
/// parses to, depend on the text alone.
#[verifier::external_body]
fn parse_document(text: &str) -> (r: Option<Yaml>)
    ensures
        r is Some <==> yaml_document(text@),
        r matches Some(d) ==> d.doc() == parsed_doc(text@) && d.doc() is Mapping,
{
    match serde_yaml::from_str::<serde_yaml::Value>(text) {
        Ok(serde_yaml::Value::Mapping(m)) => mapping_to_yaml(&m),
        _ => None,
    }
}

/// Parse a configuration text into a document. A text parses exactly when
/// it is a structured document; the result is then that text's document,
/// and its root is a mapping.
pub fn parse_document_str(text: &str) -> (r: Result<Yaml, ParseError>)
    ensures
        r is Ok <==> yaml_document(text@),
        r matches Ok(d) ==> d.doc() == parsed_doc(text@) && d.doc() is Mapping,
{
    match parse_document(text) {
        Some(d) => Ok(d),
        None => Err(ParseError),
    }
}

/// Pointer-or-concrete detection: true exactly when the text is a
/// structured document — a mapping at the root — and false for any other
/// text, such as a bare subscription link.
pub fn is_structured_document(text: &str) -> (r: bool)
    ensures
        r == yaml_document(text@),
{
    match parse_document(text) {
        Some(_) => true,
        None => false,
    }
}

} // verus!
