//! The template expander: turns a parameterized template document into a
//! concrete one, in three passes over the document.
//!
//! A provider or group entry carrying a `tpl_param` key is parameterized.
//! The provider pass generates one provider per (parameterized key, source
//! URL) pair; the group pass generates one group per (declared provider
//! key, generated provider name) pair; the resolution pass substitutes
//! `<key>` placeholders in `use` and `proxies` fields with the generated
//! name lists. Entries without `tpl_param` are copied unchanged.
//!
//! Two policies that the expansion fixes deliberately: a parameterized key
//! is registered in its name index even when it generates nothing (an empty
//! source list), so a placeholder naming it resolves to an empty list
//! rather than failing; and a generated-name collision between two original
//! keys is left as the template author wrote it, not resolved here.

use vstd::prelude::*;

use crate::yaml::Yaml;
use crate::yaml::Doc;
use crate::yaml::{entries_doc, docs_of, has_key, key_idx, lookup, set_key, remove_key, strs_view};
use crate::yaml::{lemma_key_idx, lemma_set_key, lemma_entries_doc_len, lemma_entries_doc_index};
use crate::yaml::{lemma_docs_of_len, lemma_docs_of_index};
use crate::yaml::{map_find, map_get, map_set, map_remove, str_eq, copy_entries};

verus! {

/// Reasons a template cannot be expanded.
#[derive(Debug, PartialEq, Eq, Clone, Copy)]
pub enum ExpandError {
    /// `proxy-providers` is missing or not a mapping.
    MalformedProviders,
    /// `proxy-groups` is missing or not a sequence, or a parameterized
    /// group's `tpl_param.providers` is not a sequence of strings.
    MalformedGroups,
    /// A parameterized group has no string `name` entry.
    MissingGroupName,
    /// A `<key>` placeholder names a key that no pass registered.
    UnknownPlaceholder,
}

/// Mapping entries, at the specification level.
pub type Entries = Seq<(Seq<char>, Doc)>;

/// A name index: original key to the ordered list of generated names.
pub type NameIndex = Seq<(Seq<char>, Seq<Seq<char>>)>;

/// View of an executable name index.
pub open spec fn index_view(s: Seq<(String, Vec<String>)>) -> NameIndex {
    Seq::new(s.len(), |i: int| (s[i].0@, strs_view(s[i].1@)))
}

/// An entry is parameterized when it is a mapping with a `tpl_param` key.
pub open spec fn is_parameterized(d: Doc) -> bool {
    d is Mapping && has_key(d->Mapping_0, "tpl_param"@)
}

/// The decimal digit characters.
pub open spec fn dec_digit(d: int) -> char {
    if d == 0 { '0' }
    else if d == 1 { '1' }
    else if d == 2 { '2' }
    else if d == 3 { '3' }
    else if d == 4 { '4' }
    else if d == 5 { '5' }
    else if d == 6 { '6' }
    else if d == 7 { '7' }
    else if d == 8 { '8' }
    else { '9' }
}

/// Decimal text of a non-negative number.
pub open spec fn dec_str(n: int) -> Seq<char>
    decreases n,
{
    if n < 10 {
        seq![dec_digit(n)]
    } else {
        dec_str(n / 10).push(dec_digit(n % 10))
    }
}

/// Name of the generated provider for key `key` and source index `i`.
pub open spec fn gen_provider_name(key: Seq<char>, i: int) -> Seq<char> {
    key + dec_str(i)
}

/// Cache-relative path of a generated provider's data.
pub open spec fn gen_provider_path(name: Seq<char>) -> Seq<char> {
    "proxy-providers/tpl/"@ + name + ".yaml"@
}

/// The generated provider entry for one source URL: the parameterized
/// entry's body without `tpl_param`, with `url` and `path` filled in.
pub open spec fn gen_provider(base: Entries, key: Seq<char>, i: int, url: Seq<char>) -> (
    Seq<char>,
    Doc,
) {
    let name = gen_provider_name(key, i);
    (
        name,
        Doc::Mapping(
            set_key(set_key(base, "url"@, Doc::Str(url)), "path"@, Doc::Str(gen_provider_path(name))),
        ),
    )
}

/// All providers generated for one parameterized key, in source order.
pub open spec fn gen_providers(base: Entries, key: Seq<char>, urls: Seq<Seq<char>>) -> Entries {
    Seq::new(urls.len(), |i: int| gen_provider(base, key, i, urls[i]))
}

/// The generated names for one parameterized key, in source order.
pub open spec fn gen_names(key: Seq<char>, n: int) -> Seq<Seq<char>> {
    Seq::new(n as nat, |i: int| gen_provider_name(key, i))
}

/// The provider pass. Entries without `tpl_param` are kept; each entry
/// with it is replaced by its generated providers, and its key is
/// registered in the name index, with an empty name list when there are
/// no sources.
pub open spec fn expand_providers(entries: Entries, urls: Seq<Seq<char>>) -> (Entries, NameIndex)
    decreases entries.len(),
{
    if entries.len() == 0 {
        (Seq::empty(), Seq::empty())
    } else {
        let prefix = expand_providers(entries.drop_last(), urls);
        let e = entries.last();
        if is_parameterized(e.1) {
            (
                prefix.0 + gen_providers(remove_key(e.1->Mapping_0, "tpl_param"@), e.0, urls),
                prefix.1.push((e.0, gen_names(e.0, urls.len() as int))),
            )
        } else {
            (prefix.0.push(e), prefix.1)
        }
    }
}

/// Whether a parameterized group's `tpl_param.providers` is a sequence of
/// strings.
pub open spec fn group_param_ok(m: Entries) -> bool {
    let tp = lookup(m, "tpl_param"@);
    &&& tp is Mapping
    &&& has_key(tp->Mapping_0, "providers"@)
    &&& lookup(tp->Mapping_0, "providers"@) is List
    &&& forall|i: int|
        0 <= i < lookup(tp->Mapping_0, "providers"@)->List_0.len()
            ==> lookup(tp->Mapping_0, "providers"@)->List_0[i] is Str
}

/// The provider keys a parameterized group declares, in declared order.
pub open spec fn group_pk_keys(m: Entries) -> Seq<Seq<char>> {
    let pks = lookup(lookup(m, "tpl_param"@)->Mapping_0, "providers"@)->List_0;
    Seq::new(pks.len(), |i: int| pks[i]->Str_0)
}

/// Whether a group's mapping has a string `name` entry.
pub open spec fn group_has_name(m: Entries) -> bool {
    has_key(m, "name"@) && lookup(m, "name"@) is Str
}

/// Name of the group generated for provider name `n`.
pub open spec fn gen_group_name(gname: Seq<char>, n: Seq<char>) -> Seq<char> {
    gname + "-"@ + n
}

/// The group generated for one provider name: the parameterized group's
/// body without `tpl_param`, renamed, with `use` set to that name alone.
pub open spec fn gen_group(base: Entries, gname: Seq<char>, n: Seq<char>) -> Doc {
    Doc::Mapping(
        set_key(
            set_key(base, "name"@, Doc::Str(gen_group_name(gname, n))),
            "use"@,
            Doc::List(seq![Doc::Str(n)]),
        ),
    )
}

/// The groups generated for one declared provider key: none when the key
/// is not in the index, one per registered name otherwise.
pub open spec fn gen_groups_pk(base: Entries, gname: Seq<char>, pk: Seq<char>, pidx: NameIndex) -> Seq<
    Doc,
> {
    if has_key(pidx, pk) {
        Seq::new(lookup(pidx, pk).len(), |i: int| gen_group(base, gname, lookup(pidx, pk)[i]))
    } else {
        Seq::empty()
    }
}

/// The names of the groups generated for one declared provider key.
pub open spec fn gen_group_names_pk(gname: Seq<char>, pk: Seq<char>, pidx: NameIndex) -> Seq<
    Seq<char>,
> {
    if has_key(pidx, pk) {
        Seq::new(lookup(pidx, pk).len(), |i: int| gen_group_name(gname, lookup(pidx, pk)[i]))
    } else {
        Seq::empty()
    }
}

/// All groups generated for a parameterized group, keys in declared order.
pub open spec fn gen_groups(base: Entries, gname: Seq<char>, pks: Seq<Seq<char>>, pidx: NameIndex) -> Seq<
    Doc,
>
    decreases pks.len(),
{
    if pks.len() == 0 {
        Seq::empty()
    } else {
        gen_groups(base, gname, pks.drop_last(), pidx) + gen_groups_pk(base, gname, pks.last(), pidx)
    }
}

/// The names of all groups generated for a parameterized group.
pub open spec fn gen_group_names(gname: Seq<char>, pks: Seq<Seq<char>>, pidx: NameIndex) -> Seq<
    Seq<char>,
>
    decreases pks.len(),
{
    if pks.len() == 0 {
        Seq::empty()
    } else {
        gen_group_names(gname, pks.drop_last(), pidx) + gen_group_names_pk(gname, pks.last(), pidx)
    }
}

/// The group pass. Groups without `tpl_param` are kept; a parameterized
/// group must be well formed and named, and is replaced by its generated
/// groups; its original name is registered in the group name index.
pub open spec fn expand_groups(gs: Seq<Doc>, pidx: NameIndex) -> Result<
    (Seq<Doc>, NameIndex),
    ExpandError,
>
    decreases gs.len(),
{
    if gs.len() == 0 {
        Ok((Seq::empty(), Seq::empty()))
    } else {
        match expand_groups(gs.drop_last(), pidx) {
            Err(e) => Err(e),
            Ok(prefix) => {
                let g = gs.last();
                if !is_parameterized(g) {
                    Ok((prefix.0.push(g), prefix.1))
                } else {
                    let m = g->Mapping_0;
                    if !group_param_ok(m) {
                        Err(ExpandError::MalformedGroups)
                    } else if !group_has_name(m) {
                        Err(ExpandError::MissingGroupName)
                    } else {
                        let gname = lookup(m, "name"@)->Str_0;
                        let base = remove_key(m, "tpl_param"@);
                        let pks = group_pk_keys(m);
                        Ok(
                            (
                                prefix.0 + gen_groups(base, gname, pks, pidx),
                                prefix.1.push((gname, gen_group_names(gname, pks, pidx))),
                            ),
                        )
                    }
                }
            },
        }
    }
}

/// A string of the exact placeholder form `<key>`.
pub open spec fn is_placeholder(s: Seq<char>) -> bool {
    s.len() >= 2 && s[0] == '<' && s[s.len() - 1] == '>'
}

/// The key between a placeholder's brackets.
pub open spec fn placeholder_key(s: Seq<char>) -> Seq<char> {
    s.subrange(1, s.len() - 1)
}

/// Generated names as string items of a sequence field.
pub open spec fn names_docs(ns: Seq<Seq<char>>) -> Seq<Doc> {
    Seq::new(ns.len(), |i: int| Doc::Str(ns[i]))
}

/// Resolve the items of one sequence field: a placeholder item becomes the
/// full list registered under its key, which must be registered; any other
/// item passes through unchanged.
pub open spec fn resolve_items(items: Seq<Doc>, idx: NameIndex) -> Result<Seq<Doc>, ExpandError>
    decreases items.len(),
{
    if items.len() == 0 {
        Ok(Seq::empty())
    } else {
        match resolve_items(items.drop_last(), idx) {
            Err(e) => Err(e),
            Ok(out) => {
                let it = items.last();
                if it is Str && is_placeholder(it->Str_0) {
                    let k = placeholder_key(it->Str_0);
                    if has_key(idx, k) {
                        Ok(out + names_docs(lookup(idx, k)))
                    } else {
                        Err(ExpandError::UnknownPlaceholder)
                    }
                } else {
                    Ok(out.push(it))
                }
            },
        }
    }
}

/// Resolve one named sequence field of a group against an index; a field
/// that is absent or not a sequence is left untouched.
pub open spec fn resolve_field(m: Entries, k: Seq<char>, idx: NameIndex) -> Result<
    Entries,
    ExpandError,
> {
    if has_key(m, k) && lookup(m, k) is List {
        match resolve_items(lookup(m, k)->List_0, idx) {
            Err(e) => Err(e),
            Ok(items) => Ok(set_key(m, k, Doc::List(items))),
        }
    } else {
        Ok(m)
    }
}

/// Resolve one group entry: `use` against the provider name index, then
/// `proxies` against the group name index. A non-mapping entry is kept.
pub open spec fn resolve_group(g: Doc, pidx: NameIndex, gidx: NameIndex) -> Result<
    Doc,
    ExpandError,
> {
    if !(g is Mapping) {
        Ok(g)
    } else {
        match resolve_field(g->Mapping_0, "use"@, pidx) {
            Err(e) => Err(e),
            Ok(m1) => match resolve_field(m1, "proxies"@, gidx) {
                Err(e) => Err(e),
                Ok(m2) => Ok(Doc::Mapping(m2)),
            },
        }
    }
}

/// The resolution pass, over every group now present in the output.
pub open spec fn resolve_groups(gs: Seq<Doc>, pidx: NameIndex, gidx: NameIndex) -> Result<
    Seq<Doc>,
    ExpandError,
>
    decreases gs.len(),
{
    if gs.len() == 0 {
        Ok(Seq::empty())
    } else {
        match resolve_groups(gs.drop_last(), pidx, gidx) {
            Err(e) => Err(e),
            Ok(out) => match resolve_group(gs.last(), pidx, gidx) {
                Err(e) => Err(e),
                Ok(g) => Ok(out.push(g)),
            },
        }
    }
}

/// The whole expansion: the provider pass, the group pass, and the
/// resolution pass, in that order, over a template whose root carries a
/// `proxy-providers` mapping and a `proxy-groups` sequence.
pub open spec fn expand_spec(tpl: Doc, urls: Seq<Seq<char>>) -> Result<Doc, ExpandError> {
    if !(tpl is Mapping && has_key(tpl->Mapping_0, "proxy-providers"@) && lookup(
        tpl->Mapping_0,
        "proxy-providers"@,
    ) is Mapping) {
        Err(ExpandError::MalformedProviders)
    } else {
        let pp = expand_providers(lookup(tpl->Mapping_0, "proxy-providers"@)->Mapping_0, urls);
        if !(has_key(tpl->Mapping_0, "proxy-groups"@) && lookup(
            tpl->Mapping_0,
            "proxy-groups"@,
        ) is List) {
            Err(ExpandError::MalformedGroups)
        } else {
            match expand_groups(lookup(tpl->Mapping_0, "proxy-groups"@)->List_0, pp.1) {
                Err(e) => Err(e),
                Ok(gg) => match resolve_groups(gg.0, pp.1, gg.1) {
                    Err(e) => Err(e),
                    Ok(gs) => Ok(
                        Doc::Mapping(
                            set_key(
                                set_key(tpl->Mapping_0, "proxy-providers"@, Doc::Mapping(pp.0)),
                                "proxy-groups"@,
                                Doc::List(gs),
                            ),
                        ),
                    ),
                },
            }
        }
    }
}

/// One decimal digit as text.
fn dec_digit_str(d: usize) -> (r: &'static str)
    requires
        d < 10,
    ensures
        r@ == seq![dec_digit(d as int)],
{
    let r: &'static str = if d == 0 {
        "0"
    } else if d == 1 {
        "1"
    } else if d == 2 {
        "2"
    } else if d == 3 {
        "3"
    } else if d == 4 {
        "4"
    } else if d == 5 {
        "5"
    } else if d == 6 {
        "6"
    } else if d == 7 {
        "7"
    } else if d == 8 {
        "8"
    } else {
        "9"
    };
    proof {
        reveal_strlit("0");
        reveal_strlit("1");
        reveal_strlit("2");
        reveal_strlit("3");
        reveal_strlit("4");
        reveal_strlit("5");
        reveal_strlit("6");
        reveal_strlit("7");
        reveal_strlit("8");
        reveal_strlit("9");
        assert(r@ =~= seq![dec_digit(d as int)]);
    }
    r
}

/// The decimal text of an index.
pub fn format_index(n: usize) -> (r: String)
    ensures
        r@ == dec_str(n as int),
    decreases n,
{
    if n < 10 {
        let mut s = String::new();
        s.append(dec_digit_str(n));
        proof {
            assert(s@ =~= dec_str(n as int));
        }
        s
    } else {
        let mut s = format_index(n / 10);
        s.append(dec_digit_str(n % 10));
        proof {
            assert(s@ =~= dec_str(n as int));
        }
        s
    }
}

/// The name of a generated provider: the original key with the source
/// index appended.
pub fn make_provider_name(key: &str, i: usize) -> (r: String)
    ensures
        r@ == gen_provider_name(key@, i as int),
{
    let mut s = key.to_owned();
    let d = format_index(i);
    s.append(d.as_str());
    s
}

/// The cache path of a generated provider.
pub fn make_provider_path(name: &str) -> (r: String)
    ensures
        r@ == gen_provider_path(name@),
{
    let mut s = "proxy-providers/tpl/".to_owned();
    s.append(name);
    s.append(".yaml");
    proof {
        assert(s@ =~= gen_provider_path(name@));
    }
    s
}

/// The name of a generated group: the original group name, a dash, and the
/// generated provider name.
pub fn make_group_name(gname: &str, n: &str) -> (r: String)
    ensures
        r@ == gen_group_name(gname@, n@),
{
    let mut s = gname.to_owned();
    s.append("-");
    s.append(n);
    proof {
        assert(s@ =~= gen_group_name(gname@, n@));
    }
    s
}

/// Whether a node is a parameterized entry.
pub fn yaml_parameterized(y: &Yaml) -> (r: bool)
    ensures
        r == is_parameterized(y.doc()),
{
    match y {
        Yaml::Mapping(es) => map_find(es, "tpl_param").is_some(),
        _ => false,
    }
}

/// Whether a string has the placeholder form.
fn str_is_placeholder(s: &str) -> (r: bool)
    ensures
        r == is_placeholder(s@),
{
    let n = s.unicode_len();
    if n < 2 {
        return false;
    }
    let a = s.get_char(0);
    let b = s.get_char(n - 1);
    a == '<' && b == '>'
}

/// The key between a placeholder's brackets.
fn str_placeholder_key(s: &str) -> (r: String)
    requires
        is_placeholder(s@),
    ensures
        r@ == placeholder_key(s@),
{
    let n = s.unicode_len();
    let t = s.substring_char(1, n - 1);
    t.to_owned()
}

/// Position of the first index entry registered under `key`.
fn idx_find(idx: &Vec<(String, Vec<String>)>, key: &str) -> (r: Option<usize>)
    ensures
        match r {
            Some(i) => i == key_idx(index_view(idx@), key@) && i < idx@.len()
                && idx@[i as int].0@ == key@,
            None => key_idx(index_view(idx@), key@) == -1,
        },
{
    let n = idx.len();
    let mut i: usize = 0;
    while i < n
        invariant
            i <= n,
            n == idx@.len(),
            forall|j: int| 0 <= j < i ==> index_view(idx@)[j].0 != key@,
        decreases n - i,
    {
        if str_eq(idx[i].0.as_str(), key) {
            proof {
                let s = index_view(idx@);
                lemma_key_idx(s, key@);
                let ki = key_idx(s, key@);
                assert(s[i as int].0 == key@);
                assert(ki != -1);
                assert(!(ki < i as int));
                assert(!(ki > i as int)) by {
                    if ki > i as int {
                        assert(s[i as int].0 != key@);
                    }
                }
            }
            return Some(i);
        }
        i += 1;
    }
    proof {
        lemma_key_idx(index_view(idx@), key@);
    }
    None
}

/// The provider pass over the template's provider entries: verbatim
/// entries are kept in order; a parameterized entry is replaced by one
/// generated provider per source URL and registered in the name index.
pub fn run_provider_pass(pp: &Vec<(String, Yaml)>, urls: &Vec<String>) -> (r: (
    Vec<(String, Yaml)>,
    Vec<(String, Vec<String>)>,
))
    ensures
        entries_doc(r.0@) == expand_providers(entries_doc(pp@), strs_view(urls@)).0,
        index_view(r.1@) == expand_providers(entries_doc(pp@), strs_view(urls@)).1,
{
    let ghost src = entries_doc(pp@);
    let ghost uv = strs_view(urls@);
    let mut out: Vec<(String, Yaml)> = Vec::new();
    let mut idx: Vec<(String, Vec<String>)> = Vec::new();
    let n = pp.len();
    proof {
        broadcast use {lemma_entries_doc_len, lemma_entries_doc_index};

        assert(src.take(0) =~= Seq::<(Seq<char>, Doc)>::empty());
    }
    let mut i: usize = 0;
    while i < n
        invariant
            i <= n,
            n == pp@.len(),
            src == entries_doc(pp@),
            uv == strs_view(urls@),
            src.len() == n,
            uv.len() == urls@.len(),
            entries_doc(out@) == expand_providers(src.take(i as int), uv).0,
            index_view(idx@) == expand_providers(src.take(i as int), uv).1,
        decreases n - i,
    {
        let ghost pre_out = entries_doc(out@);
        let ghost pre_idx = index_view(idx@);
        let e = &pp[i];
        proof {
            broadcast use {lemma_entries_doc_len, lemma_entries_doc_index};

            assert(src[i as int] == (pp@[i as int].0@, pp@[i as int].1.doc()));
        }
        let mut parameterized = false;
        if let Yaml::Mapping(ves) = &e.1 {
            if map_find(ves, "tpl_param").is_some() {
                parameterized = true;
                proof {
                    assert(is_parameterized(src[i as int].1));
                }
                let mut base = copy_entries(ves);
                map_remove(&mut base, "tpl_param");
                let ghost bd = entries_doc(base@);
                proof {
                    assert(bd == remove_key(src[i as int].1->Mapping_0, "tpl_param"@));
                    assert(uv.take(0) =~= Seq::<Seq<char>>::empty());
                    assert(gen_providers(bd, e.0@, uv.take(0)) =~= Seq::<(Seq<char>, Doc)>::empty());
                    assert(pre_out + gen_providers(bd, e.0@, uv.take(0)) =~= pre_out);
                    assert(gen_names(e.0@, 0) =~= Seq::<Seq<char>>::empty());
                    assert(strs_view(Seq::<String>::empty()) =~= Seq::<Seq<char>>::empty());
                }
                let mut names: Vec<String> = Vec::new();
                let m = urls.len();
                let mut j: usize = 0;
                while j < m
                    invariant
                        j <= m,
                        m == urls@.len(),
                        uv == strs_view(urls@),
                        uv.len() == m,
                        bd == entries_doc(base@),
                        entries_doc(out@) == pre_out + gen_providers(bd, e.0@, uv.take(j as int)),
                        strs_view(names@) == gen_names(e.0@, j as int),
                    decreases m - j,
                {
                    let name = make_provider_name(e.0.as_str(), j);
                    let mut entry = copy_entries(&base);
                    map_set(&mut entry, "url", Yaml::Str(urls[j].clone()));
                    map_set(&mut entry, "path", Yaml::Str(make_provider_path(name.as_str())));
                    let ghost entry_doc = entries_doc(entry@);
                    proof {
                        assert(uv[j as int] == urls@[j as int]@);
                        assert(entry_doc == set_key(
                            set_key(bd, "url"@, Doc::Str(uv[j as int])),
                            "path"@,
                            Doc::Str(gen_provider_path(name@)),
                        ));
                    }
                    let ghost ob = out@;
                    out.push((name.clone(), Yaml::Mapping(entry)));
                    names.push(name);
                    proof {
                        broadcast use {lemma_entries_doc_len, lemma_entries_doc_index};

                        let ghost genp = gen_provider(bd, e.0@, j as int, uv[j as int]);
                        assert(gen_providers(bd, e.0@, uv.take(j + 1)) =~= gen_providers(
                            bd,
                            e.0@,
                            uv.take(j as int),
                        ).push(genp));
                        assert(out@.drop_last() =~= ob);
                        assert(entries_doc(out@) == entries_doc(ob).push(
                            (out@.last().0@, out@.last().1.doc()),
                        ));
                        assert(out@.last().1.doc() == Doc::Mapping(entry_doc));
                        assert(genp == (name@, Doc::Mapping(entry_doc)));
                        assert(pre_out + gen_providers(bd, e.0@, uv.take(j as int)).push(genp) =~= (
                        pre_out + gen_providers(bd, e.0@, uv.take(j as int))).push(genp));
                        assert(entries_doc(out@) =~= pre_out + gen_providers(bd, e.0@, uv.take(j + 1)));
                        assert(gen_names(e.0@, j + 1) =~= gen_names(e.0@, j as int).push(
                            gen_provider_name(e.0@, j as int),
                        ));
                        assert(strs_view(names@) =~= gen_names(e.0@, j + 1));
                    }
                    j += 1;
                }
                proof {
                    assert(uv.take(m as int) =~= uv);
                }
                idx.push((e.0.clone(), names));
                proof {
                    assert(index_view(idx@) =~= pre_idx.push(
                        (e.0@, gen_names(e.0@, uv.len() as int)),
                    ));
                }
            }
        }
        if !parameterized {
            proof {
                assert(!is_parameterized(src[i as int].1));
            }
            out.push((e.0.clone(), e.1.deep_copy()));
            proof {
                broadcast use {lemma_entries_doc_len, lemma_entries_doc_index};

                assert(entries_doc(out@) =~= pre_out.push(src[i as int]));
            }
        }
        proof {
            assert(src.take(i + 1).drop_last() =~= src.take(i as int));
            assert(src.take(i + 1).last() == src[i as int]);
        }
        i += 1;
    }
    proof {
        assert(src.take(n as int) =~= src);
    }
    (out, idx)
}

/// The items of a declared provider-key sequence, which must all be
/// strings.
fn collect_string_keys(items: &Vec<Yaml>) -> (r: Option<Vec<String>>)
    ensures
        match r {
            Some(v) => v@.len() == items@.len() && (forall|t: int|
                0 <= t < items@.len() ==> docs_of(items@)[t] is Str) && strs_view(v@) == Seq::new(
                items@.len(),
                |t: int| docs_of(items@)[t]->Str_0,
            ),
            None => exists|t: int| 0 <= t < items@.len() && !(docs_of(items@)[t] is Str),
        },
{
    let mut out: Vec<String> = Vec::new();
    let n = items.len();
    let mut k: usize = 0;
    while k < n
        invariant
            k <= n,
            n == items@.len(),
            out@.len() == k,
            forall|t: int| 0 <= t < k ==> (#[trigger] docs_of(items@)[t]) is Str,
            forall|t: int| 0 <= t < k ==> #[trigger] out@[t]@ == docs_of(items@)[t]->Str_0,
        decreases n - k,
    {
        match &items[k] {
            Yaml::Str(s) => {
                let ghost ob = out@;
                out.push(s.clone());
                proof {
                    broadcast use {lemma_docs_of_len, lemma_docs_of_index};

                    assert(items@[k as int] is Str);
                    assert(docs_of(items@)[k as int] == items@[k as int].doc());
                    assert(out@[k as int]@ == docs_of(items@)[k as int]->Str_0);
                    assert forall|t: int| 0 <= t < k + 1 implies (#[trigger] docs_of(
                        items@,
                    )[t]) is Str && out@[t]@ == docs_of(items@)[t]->Str_0 by {
                        if t < k {
                            assert(out@[t] == ob[t]);
                            assert(ob[t]@ == docs_of(items@)[t]->Str_0);
                        }
                    }
                }
            },
            _ => {
                proof {
                    broadcast use {lemma_docs_of_len, lemma_docs_of_index};

                    assert(!(docs_of(items@)[k as int] is Str));
                }
                return None;
            },
        }
        k += 1;
    }
    proof {
        broadcast use {lemma_docs_of_len, lemma_docs_of_index};

        assert(strs_view(out@) =~= Seq::new(items@.len(), |t: int| docs_of(items@)[t]->Str_0));
    }
    Some(out)
}

/// The group pass over the template's group entries: verbatim groups are
/// kept in order; a parameterized group is replaced by one generated group
/// per (declared provider key, registered provider name) pair, and its
/// original name is registered in the group name index.
pub fn run_group_pass(gs: &Vec<Yaml>, pidx: &Vec<(String, Vec<String>)>) -> (r: Result<
    (Vec<Yaml>, Vec<(String, Vec<String>)>),
    ExpandError,
>)
    ensures
        match r {
            Ok(p) => expand_groups(docs_of(gs@), index_view(pidx@)) == Ok::<
                (Seq<Doc>, NameIndex),
                ExpandError,
            >((docs_of(p.0@), index_view(p.1@))),
            Err(e) => expand_groups(docs_of(gs@), index_view(pidx@)) == Err::<
                (Seq<Doc>, NameIndex),
                ExpandError,
            >(e),
        },
{
    let ghost src = docs_of(gs@);
    let ghost pv = index_view(pidx@);
    let mut out: Vec<Yaml> = Vec::new();
    let mut gidx: Vec<(String, Vec<String>)> = Vec::new();
    let n = gs.len();
    proof {
        broadcast use {lemma_docs_of_len, lemma_docs_of_index};

        assert(src.take(0) =~= Seq::<Doc>::empty());
        assert(index_view(gidx@) =~= Seq::<(Seq<char>, Seq<Seq<char>>)>::empty());
    }
    let mut i: usize = 0;
    while i < n
        invariant
            i <= n,
            n == gs@.len(),
            src == docs_of(gs@),
            pv == index_view(pidx@),
            src.len() == n,
            pv.len() == pidx@.len(),
            expand_groups(src.take(i as int), pv) == Ok::<(Seq<Doc>, NameIndex), ExpandError>(
                (docs_of(out@), index_view(gidx@)),
            ),
        decreases n - i,
    {
        let ghost pre_out = docs_of(out@);
        let ghost pre_idx = index_view(gidx@);
        let g = &gs[i];
        proof {
            broadcast use {lemma_docs_of_len, lemma_docs_of_index};

            assert(src[i as int] == gs@[i as int].doc());
            assert(src.take(i + 1).drop_last() =~= src.take(i as int));
            assert(src.take(i + 1).last() == src[i as int]);
        }
        if !yaml_parameterized(g) {
            let ghost ob = out@;
            out.push(g.deep_copy());
            proof {
                broadcast use {lemma_docs_of_len, lemma_docs_of_index};

                assert(out@.drop_last() =~= ob);
                assert(docs_of(out@) == docs_of(ob).push(out@.last().doc()));
            }
        } else {
            let ges = match g {
                Yaml::Mapping(v) => v,
                _ => {
                    proof {
                        assert(false);
                    }
                    unreached()
                },
            };
            let ghost m = src[i as int]->Mapping_0;
            proof {
                assert(m == entries_doc(ges@));
            }
            // The parameterized marker itself.
            let tpv = match map_get(ges, "tpl_param") {
                Some(v) => v,
                None => {
                    proof {
                        assert(false);
                    }
                    unreached()
                },
            };
            // `tpl_param` must be a mapping that declares `providers` as a
            // sequence of strings.
            let tpm = match tpv {
                Yaml::Mapping(v) => v,
                _ => {
                    proof {
                        assert(!group_param_ok(m));
                        lemma_expand_groups_err(src, pv, i + 1);
                    }
                    return Err(ExpandError::MalformedGroups);
                },
            };
            let pkl = match map_get(tpm, "providers") {
                Some(p) => match p {
                    Yaml::List(v) => v,
                    _ => {
                        proof {
                            assert(!group_param_ok(m));
                            lemma_expand_groups_err(src, pv, i + 1);
                        }
                        return Err(ExpandError::MalformedGroups);
                    },
                },
                None => {
                    proof {
                        assert(!group_param_ok(m));
                        lemma_expand_groups_err(src, pv, i + 1);
                    }
                    return Err(ExpandError::MalformedGroups);
                },
            };
            let ghost pkd = docs_of(pkl@);
            proof {
                assert(lookup(m, "tpl_param"@) == Doc::Mapping(entries_doc(tpm@)));
                assert(lookup(entries_doc(tpm@), "providers"@) == Doc::List(pkd));
            }
            // The declared provider keys, all of which must be strings.
            let pks = match collect_string_keys(pkl) {
                Some(v) => v,
                None => {
                    proof {
                        assert(!group_param_ok(m));
                        lemma_expand_groups_err(src, pv, i + 1);
                    }
                    return Err(ExpandError::MalformedGroups);
                },
            };
            proof {
                assert(group_param_ok(m));
                assert(strs_view(pks@) =~= group_pk_keys(m));
            }
            // A parameterized group must carry a string name.
            let gname = match map_get(ges, "name") {
                Some(nm) => match nm {
                    Yaml::Str(s) => s,
                    _ => {
                        proof {
                            assert(!group_has_name(m));
                            lemma_expand_groups_err(src, pv, i + 1);
                        }
                        return Err(ExpandError::MissingGroupName);
                    },
                },
                None => {
                    proof {
                        assert(!group_has_name(m));
                        lemma_expand_groups_err(src, pv, i + 1);
                    }
                    return Err(ExpandError::MissingGroupName);
                },
            };
            let ghost gnv = gname@;
            let mut base = copy_entries(ges);
            map_remove(&mut base, "tpl_param");
            let ghost bd = entries_doc(base@);
            let ghost pkv = strs_view(pks@);
            proof {
                assert(bd == remove_key(m, "tpl_param"@));
                assert(pkv.take(0) =~= Seq::<Seq<char>>::empty());
                assert(pre_out + gen_groups(bd, gnv, pkv.take(0), pv) =~= pre_out);
                assert(gen_group_names(gnv, pkv.take(0), pv) =~= Seq::<Seq<char>>::empty());
                assert(strs_view(Seq::<String>::empty()) =~= Seq::<Seq<char>>::empty());
            }
            let mut gnames: Vec<String> = Vec::new();
            let npks = pks.len();
            let mut k2: usize = 0;
            while k2 < npks
                invariant
                    k2 <= npks,
                    npks == pks@.len(),
                    pkv == strs_view(pks@),
                    pkv.len() == npks,
                    pv == index_view(pidx@),
                    pv.len() == pidx@.len(),
                    bd == entries_doc(base@),
                    docs_of(out@) == pre_out + gen_groups(bd, gnv, pkv.take(k2 as int), pv),
                    strs_view(gnames@) == gen_group_names(gnv, pkv.take(k2 as int), pv),
                    gnv == gname@,
                decreases npks - k2,
            {
                let ghost acc_out = docs_of(out@);
                let ghost acc_names = strs_view(gnames@);
                let ghost pk = pkv[k2 as int];
                proof {
                    assert(pkv.take(k2 + 1).drop_last() =~= pkv.take(k2 as int));
                    assert(pkv.take(k2 + 1).last() == pk);
                }
                match idx_find(pidx, pks[k2].as_str()) {
                    None => {
                        proof {
                            assert(!has_key(pv, pk));
                            assert(gen_groups_pk(bd, gnv, pk, pv) =~= Seq::<Doc>::empty());
                            assert(gen_group_names_pk(gnv, pk, pv) =~= Seq::<Seq<char>>::empty());
                            assert(acc_out + gen_groups_pk(bd, gnv, pk, pv) =~= acc_out);
                            assert(acc_names + gen_group_names_pk(gnv, pk, pv) =~= acc_names);
                        }
                    },
                    Some(ix) => {
                        let names = &pidx[ix].1;
                        let ghost nsv = strs_view(names@);
                        proof {
                            assert(has_key(pv, pk));
                            assert(lookup(pv, pk) == nsv);
                            assert(nsv.take(0) =~= Seq::<Seq<char>>::empty());
                        }
                        let nn = names.len();
                        let mut t: usize = 0;
                        while t < nn
                            invariant
                                t <= nn,
                                nn == names@.len(),
                                nsv == strs_view(names@),
                                nsv.len() == nn,
                                bd == entries_doc(base@),
                                gnv == gname@,
                                docs_of(out@) == acc_out + Seq::new(
                                    t as nat,
                                    |q: int| gen_group(bd, gnv, nsv[q]),
                                ),
                                strs_view(gnames@) == acc_names + Seq::new(
                                    t as nat,
                                    |q: int| gen_group_name(gnv, nsv[q]),
                                ),
                            decreases nn - t,
                        {
                            let name2 = make_group_name(gname.as_str(), names[t].as_str());
                            let mut entry = copy_entries(&base);
                            map_set(&mut entry, "name", Yaml::Str(name2.clone()));
                            let mut one: Vec<Yaml> = Vec::new();
                            one.push(Yaml::Str(names[t].clone()));
                            proof {
                                assert(one@.len() == 1);
                                assert(one@[0] == Yaml::Str(names@[t as int]));
                                assert(one@[0].doc() == Doc::Str(nsv[t as int]));
                                assert(one@.drop_last() =~= Seq::<Yaml>::empty());
                                assert(docs_of(Seq::<Yaml>::empty()) == Seq::<Doc>::empty());
                                assert(docs_of(one@) == docs_of(one@.drop_last()).push(
                                    one@.last().doc(),
                                ));
                                assert(docs_of(one@) =~= seq![Doc::Str(nsv[t as int])]);
                            }
                            map_set(&mut entry, "use", Yaml::List(one));
                            let ghost entry_doc = entries_doc(entry@);
                            let ghost ob = out@;
                            let ghost gb = gnames@;
                            out.push(Yaml::Mapping(entry));
                            gnames.push(name2);
                            proof {
                                broadcast use {lemma_docs_of_len, lemma_docs_of_index};

                                assert(out@.drop_last() =~= ob);
                                assert(docs_of(out@) == docs_of(ob).push(out@.last().doc()));
                                assert(out@.last().doc() == Doc::Mapping(entry_doc));
                                assert(entry_doc == set_key(
                                    set_key(bd, "name"@, Doc::Str(gen_group_name(gnv, nsv[t as int]))),
                                    "use"@,
                                    Doc::List(seq![Doc::Str(nsv[t as int])]),
                                ));
                                assert(Doc::Mapping(entry_doc) == gen_group(bd, gnv, nsv[t as int]));
                                assert(docs_of(out@) =~= acc_out + Seq::new(
                                    (t + 1) as nat,
                                    |q: int| gen_group(bd, gnv, nsv[q]),
                                ));
                                assert(gnames@ == gb.push(name2));
                                assert(name2@ == gen_group_name(gnv, nsv[t as int]));
                                assert(strs_view(gb) == acc_names + Seq::new(
                                    t as nat,
                                    |q: int| gen_group_name(gnv, nsv[q]),
                                ));
                                let ghost target = acc_names + Seq::new(
                                    (t + 1) as nat,
                                    |q: int| gen_group_name(gnv, nsv[q]),
                                );
                                assert(gnames@.len() == gb.len() + 1);
                                assert(strs_view(gnames@).len() == gnames@.len());
                                assert(target.len() == acc_names.len() + t + 1);
                                assert(strs_view(gb).len() == gb.len());
                                assert(gb.len() == acc_names.len() + t);
                                assert(strs_view(gnames@).len() == target.len());
                                assert forall|q: int|
                                    0 <= q < target.len() implies #[trigger] strs_view(gnames@)[q]
                                    == target[q] by {
                                    assert(strs_view(gnames@)[q] == gnames@[q]@);
                                    if q < gb.len() {
                                        assert(gnames@[q] == gb[q]);
                                        assert(strs_view(gb)[q] == gb[q]@);
                                        assert(target[q] == (acc_names + Seq::new(
                                            t as nat,
                                            |q2: int| gen_group_name(gnv, nsv[q2]),
                                        ))[q]);
                                    } else {
                                        assert(gnames@[q] == name2);
                                        assert(target[q] == gen_group_name(gnv, nsv[t as int]));
                                    }
                                }
                                assert(strs_view(gnames@) =~= target);
                            }
                            t += 1;
                        }
                        proof {
                            assert(Seq::new(nn as nat, |q: int| gen_group(bd, gnv, nsv[q]))
                                =~= gen_groups_pk(bd, gnv, pk, pv));
                            assert(Seq::new(nn as nat, |q: int| gen_group_name(gnv, nsv[q]))
                                =~= gen_group_names_pk(gnv, pk, pv));
                        }
                    },
                }
                proof {
                    assert(docs_of(out@) =~= pre_out + gen_groups(bd, gnv, pkv.take(k2 + 1), pv));
                    assert(strs_view(gnames@) =~= gen_group_names(gnv, pkv.take(k2 + 1), pv));
                }
                k2 += 1;
            }
            proof {
                assert(pkv.take(npks as int) =~= pkv);
            }
            gidx.push((gname.clone(), gnames));
            proof {
                assert(index_view(gidx@) =~= pre_idx.push((gnv, gen_group_names(gnv, pkv, pv))));
            }
        }
        i += 1;
    }
    proof {
        assert(src.take(n as int) =~= src);
    }
    Ok((out, gidx))
}

/// A failing prefix of the group pass fails the whole pass, with the same
/// error.
pub proof fn lemma_expand_groups_err(s: Seq<Doc>, p: NameIndex, k: int)
    requires
        0 <= k <= s.len(),
        expand_groups(s.take(k), p) is Err,
    ensures
        expand_groups(s, p) == expand_groups(s.take(k), p),
    decreases s.len() - k,
{
    if k < s.len() {
        assert(s.take(k + 1).drop_last() =~= s.take(k));
        lemma_expand_groups_err(s, p, k + 1);
    } else {
        assert(s.take(k) =~= s);
    }
}

/// A failing prefix of the resolution pass fails the whole pass, with the
/// same error.
pub proof fn lemma_resolve_groups_err(s: Seq<Doc>, p: NameIndex, g: NameIndex, k: int)
    requires
        0 <= k <= s.len(),
        resolve_groups(s.take(k), p, g) is Err,
    ensures
        resolve_groups(s, p, g) == resolve_groups(s.take(k), p, g),
    decreases s.len() - k,
{
    if k < s.len() {
        assert(s.take(k + 1).drop_last() =~= s.take(k));
        lemma_resolve_groups_err(s, p, g, k + 1);
    } else {
        assert(s.take(k) =~= s);
    }
}

/// A failing prefix of one field's item resolution fails the whole field,
/// with the same error.
pub proof fn lemma_resolve_items_err(s: Seq<Doc>, idx: NameIndex, k: int)
    requires
        0 <= k <= s.len(),
        resolve_items(s.take(k), idx) is Err,
    ensures
        resolve_items(s, idx) == resolve_items(s.take(k), idx),
    decreases s.len() - k,
{
    if k < s.len() {
        assert(s.take(k + 1).drop_last() =~= s.take(k));
        lemma_resolve_items_err(s, idx, k + 1);
    } else {
        assert(s.take(k) =~= s);
    }
}

/// Resolve the items of one sequence field against a name index.
fn resolve_items_exec(items: &Vec<Yaml>, idx: &Vec<(String, Vec<String>)>) -> (r: Result<
    Vec<Yaml>,
    ExpandError,
>)
    ensures
        match r {
            Ok(v) => resolve_items(docs_of(items@), index_view(idx@)) == Ok::<Seq<Doc>, ExpandError>(
                docs_of(v@),
            ),
            Err(e) => resolve_items(docs_of(items@), index_view(idx@)) == Err::<
                Seq<Doc>,
                ExpandError,
            >(e),
        },
{
    let ghost src = docs_of(items@);
    let ghost iv = index_view(idx@);
    let mut out: Vec<Yaml> = Vec::new();
    let n = items.len();
    proof {
        broadcast use {lemma_docs_of_len, lemma_docs_of_index};

        assert(src.take(0) =~= Seq::<Doc>::empty());
    }
    let mut i: usize = 0;
    while i < n
        invariant
            i <= n,
            n == items@.len(),
            src == docs_of(items@),
            iv == index_view(idx@),
            src.len() == n,
            iv.len() == idx@.len(),
            resolve_items(src.take(i as int), iv) == Ok::<Seq<Doc>, ExpandError>(docs_of(out@)),
        decreases n - i,
    {
        let ghost pre = docs_of(out@);
        proof {
            broadcast use {lemma_docs_of_len, lemma_docs_of_index};

            assert(src[i as int] == items@[i as int].doc());
            assert(src.take(i + 1).drop_last() =~= src.take(i as int));
            assert(src.take(i + 1).last() == src[i as int]);
        }
        let it = &items[i];
        let mut plain = true;
        if let Yaml::Str(s) = it {
            if str_is_placeholder(s.as_str()) {
                plain = false;
                let key = str_placeholder_key(s.as_str());
                match idx_find(idx, key.as_str()) {
                    None => {
                        proof {
                            assert(resolve_items(src.take(i + 1), iv) == Err::<
                                Seq<Doc>,
                                ExpandError,
                            >(ExpandError::UnknownPlaceholder));
                            lemma_resolve_items_err(src, iv, i + 1);
                        }
                        return Err(ExpandError::UnknownPlaceholder);
                    },
                    Some(ix) => {
                        let names = &idx[ix].1;
                        let ghost nsv = strs_view(names@);
                        proof {
                            assert(lookup(iv, key@) == nsv);
                            assert(names_docs(nsv).take(0) =~= Seq::<Doc>::empty());
                            assert(pre + names_docs(nsv).take(0) =~= pre);
                        }
                        let nn = names.len();
                        let mut t: usize = 0;
                        while t < nn
                            invariant
                                t <= nn,
                                nn == names@.len(),
                                nsv == strs_view(names@),
                                nsv.len() == nn,
                                docs_of(out@) == pre + names_docs(nsv).take(t as int),
                            decreases nn - t,
                        {
                            let ghost ob = out@;
                            out.push(Yaml::Str(names[t].clone()));
                            proof {
                                broadcast use {lemma_docs_of_len, lemma_docs_of_index};

                                assert(out@.drop_last() =~= ob);
                                assert(docs_of(out@) == docs_of(ob).push(out@.last().doc()));
                                assert(out@.last().doc() == Doc::Str(nsv[t as int]));
                                assert(names_docs(nsv).take(t + 1) =~= names_docs(nsv).take(
                                    t as int,
                                ).push(Doc::Str(nsv[t as int])));
                                assert(docs_of(out@) =~= pre + names_docs(nsv).take(t + 1));
                            }
                            t += 1;
                        }
                        proof {
                            assert(names_docs(nsv).take(nn as int) =~= names_docs(nsv));
                            assert(docs_of(out@) == pre + names_docs(lookup(iv, key@)));
                            assert(resolve_items(src.take(i + 1), iv) == Ok::<Seq<Doc>, ExpandError>(
                                docs_of(out@),
                            ));
                        }
                    },
                }
            }
        }
        if plain {
            let ghost ob = out@;
            out.push(it.deep_copy());
            proof {
                broadcast use {lemma_docs_of_len, lemma_docs_of_index};

                assert(out@.drop_last() =~= ob);
                assert(docs_of(out@) == docs_of(ob).push(out@.last().doc()));
                assert(!(src[i as int] is Str && is_placeholder(src[i as int]->Str_0)));
                assert(resolve_items(src.take(i + 1), iv) == Ok::<Seq<Doc>, ExpandError>(
                    docs_of(out@),
                ));
            }
        }
        i += 1;
    }
    proof {
        assert(src.take(n as int) =~= src);
    }
    Ok(out)
}

/// Resolve one named sequence field of a group's mapping body.
fn resolve_field_exec(m: &Vec<(String, Yaml)>, key: &str, idx: &Vec<(String, Vec<String>)>) -> (r:
    Result<Vec<(String, Yaml)>, ExpandError>)
    ensures
        match r {
            Ok(v) => resolve_field(entries_doc(m@), key@, index_view(idx@)) == Ok::<
                Entries,
                ExpandError,
            >(entries_doc(v@)),
            Err(e) => resolve_field(entries_doc(m@), key@, index_view(idx@)) == Err::<
                Entries,
                ExpandError,
            >(e),
        },
{
    match map_get(m, key) {
        Some(v) => match v {
            Yaml::List(items) => match resolve_items_exec(items, idx) {
                Ok(new_items) => {
                    let mut out = copy_entries(m);
                    map_set(&mut out, key, Yaml::List(new_items));
                    Ok(out)
                },
                Err(e) => Err(e),
            },
            _ => Ok(copy_entries(m)),
        },
        None => Ok(copy_entries(m)),
    }
}

/// Resolve one group entry: `use` against the provider name index, then
/// `proxies` against the group name index.
fn resolve_group_exec(g: &Yaml, pidx: &Vec<(String, Vec<String>)>, gidx: &Vec<(String, Vec<String>)>) -> (r:
    Result<Yaml, ExpandError>)
    ensures
        match r {
            Ok(d) => resolve_group(g.doc(), index_view(pidx@), index_view(gidx@)) == Ok::<
                Doc,
                ExpandError,
            >(d.doc()),
            Err(e) => resolve_group(g.doc(), index_view(pidx@), index_view(gidx@)) == Err::<
                Doc,
                ExpandError,
            >(e),
        },
{
    match g {
        Yaml::Mapping(m) => match resolve_field_exec(m, "use", pidx) {
            Err(e) => Err(e),
            Ok(m1) => match resolve_field_exec(&m1, "proxies", gidx) {
                Err(e) => Err(e),
                Ok(m2) => Ok(Yaml::Mapping(m2)),
            },
        },
        _ => Ok(g.deep_copy()),
    }
}

/// The resolution pass over every group of the expanded output.
fn run_resolution_pass(
    gs: &Vec<Yaml>,
    pidx: &Vec<(String, Vec<String>)>,
    gidx: &Vec<(String, Vec<String>)>,
) -> (r: Result<Vec<Yaml>, ExpandError>)
    ensures
        match r {
            Ok(v) => resolve_groups(docs_of(gs@), index_view(pidx@), index_view(gidx@)) == Ok::<
                Seq<Doc>,
                ExpandError,
            >(docs_of(v@)),
            Err(e) => resolve_groups(docs_of(gs@), index_view(pidx@), index_view(gidx@)) == Err::<
                Seq<Doc>,
                ExpandError,
            >(e),
        },
{
    let ghost src = docs_of(gs@);
    let ghost pv = index_view(pidx@);
    let ghost gv = index_view(gidx@);
    let mut out: Vec<Yaml> = Vec::new();
    let n = gs.len();
    proof {
        broadcast use {lemma_docs_of_len, lemma_docs_of_index};

        assert(src.take(0) =~= Seq::<Doc>::empty());
    }
    let mut i: usize = 0;
    while i < n
        invariant
            i <= n,
            n == gs@.len(),
            src == docs_of(gs@),
            pv == index_view(pidx@),
            gv == index_view(gidx@),
            src.len() == n,
            resolve_groups(src.take(i as int), pv, gv) == Ok::<Seq<Doc>, ExpandError>(docs_of(out@)),
        decreases n - i,
    {
        let ghost pre = docs_of(out@);
        proof {
            broadcast use {lemma_docs_of_len, lemma_docs_of_index};

            assert(src[i as int] == gs@[i as int].doc());
            assert(src.take(i + 1).drop_last() =~= src.take(i as int));
            assert(src.take(i + 1).last() == src[i as int]);
        }
        match resolve_group_exec(&gs[i], pidx, gidx) {
            Ok(d) => {
                let ghost ob = out@;
                out.push(d);
                proof {
                    broadcast use {lemma_docs_of_len, lemma_docs_of_index};

                    assert(out@.drop_last() =~= ob);
                    assert(docs_of(out@) == docs_of(ob).push(out@.last().doc()));
                }
            },
            Err(e) => {
                proof {
                    lemma_resolve_groups_err(src, pv, gv, i + 1);
                }
                return Err(e);
            },
        }
        i += 1;
    }
    proof {
        assert(src.take(n as int) =~= src);
    }
    Ok(out)
}

/// Expand a template document against an ordered list of provider source
/// URLs. The result is the template with `proxy-providers` replaced by the
/// provider pass's output, `proxy-groups` replaced by the group pass's
/// output with placeholders resolved, and everything else unchanged.
pub fn expand_template(tpl: &Yaml, urls: &Vec<String>) -> (r: Result<Yaml, ExpandError>)
    ensures
        match r {
            Ok(d) => expand_spec(tpl.doc(), strs_view(urls@)) == Ok::<Doc, ExpandError>(d.doc()),
            Err(e) => expand_spec(tpl.doc(), strs_view(urls@)) == Err::<Doc, ExpandError>(e),
        },
{
    let tes = match tpl {
        Yaml::Mapping(v) => v,
        _ => {
            return Err(ExpandError::MalformedProviders);
        },
    };
    let pes = match map_get(tes, "proxy-providers") {
        Some(p) => match p {
            Yaml::Mapping(v) => v,
            _ => {
                return Err(ExpandError::MalformedProviders);
            },
        },
        None => {
            return Err(ExpandError::MalformedProviders);
        },
    };
    let passed = run_provider_pass(pes, urls);
    let out_pp = passed.0;
    let pidx = passed.1;
    let ges = match map_get(tes, "proxy-groups") {
        Some(p) => match p {
            Yaml::List(v) => v,
            _ => {
                return Err(ExpandError::MalformedGroups);
            },
        },
        None => {
            return Err(ExpandError::MalformedGroups);
        },
    };
    let grouped = match run_group_pass(ges, &pidx) {
        Ok(p) => p,
        Err(e) => {
            return Err(e);
        },
    };
    let out_gs = grouped.0;
    let gidx = grouped.1;
    let res_gs = match run_resolution_pass(&out_gs, &pidx, &gidx) {
        Ok(v) => v,
        Err(e) => {
            return Err(e);
        },
    };
    let mut out = copy_entries(tes);
    map_set(&mut out, "proxy-providers", Yaml::Mapping(out_pp));
    map_set(&mut out, "proxy-groups", Yaml::List(res_gs));
    Ok(Yaml::Mapping(out))
}

/// Provider fan-out: one parameterized provider entry expands to exactly
/// one generated provider per source URL, in source order. The provider
/// for source `i` is named `{key}{i}`, carries the entry's body without
/// `tpl_param`, its `url` is the `i`-th source, and its `path` is
/// `proxy-providers/tpl/{key}{i}.yaml`; the key is registered with all
/// generated names, in order.
pub proof fn lemma_provider_fan_out(key: Seq<char>, v: Doc, urls: Seq<Seq<char>>)
    requires
        is_parameterized(v),
    ensures
        ({
            let r = expand_providers(seq![(key, v)], urls);
            let base = remove_key(v->Mapping_0, "tpl_param"@);
            &&& r.0.len() == urls.len()
            &&& (forall|i: int|
                0 <= i < urls.len() ==> (#[trigger] r.0[i]) == gen_provider(base, key, i, urls[i]))
            &&& (forall|i: int|
                0 <= i < urls.len() ==> (#[trigger] r.0[i]).0 == key + dec_str(i) && r.0[i].1
                    is Mapping && lookup(r.0[i].1->Mapping_0, "url"@) == Doc::Str(urls[i]) && lookup(
                    r.0[i].1->Mapping_0,
                    "path"@,
                ) == Doc::Str(gen_provider_path(key + dec_str(i))))
            &&& r.1 == seq![(key, gen_names(key, urls.len() as int))]
        }),
{
    let s = seq![(key, v)];
    let base = remove_key(v->Mapping_0, "tpl_param"@);
    assert(s.drop_last() =~= Seq::<(Seq<char>, Doc)>::empty());
    let r = expand_providers(s, urls);
    assert(expand_providers(s.drop_last(), urls).0 =~= Seq::<(Seq<char>, Doc)>::empty());
    assert(expand_providers(s.drop_last(), urls).1 =~= Seq::<(Seq<char>, Seq<Seq<char>>)>::empty());
    assert(s.last() == (key, v));
    assert(r.0 =~= gen_providers(base, key, urls));
    assert(r.1 =~= seq![(key, gen_names(key, urls.len() as int))]);
    assert forall|i: int| 0 <= i < urls.len() implies (#[trigger] r.0[i]).0 == key + dec_str(i)
        && r.0[i].1 is Mapping && lookup(r.0[i].1->Mapping_0, "url"@) == Doc::Str(urls[i])
        && lookup(r.0[i].1->Mapping_0, "path"@) == Doc::Str(
        gen_provider_path(key + dec_str(i)),
    ) by {
        assert(r.0[i] == gen_provider(base, key, i, urls[i]));
        let name = gen_provider_name(key, i);
        let inner = set_key(base, "url"@, Doc::Str(urls[i]));
        let outer = set_key(inner, "path"@, Doc::Str(gen_provider_path(name)));
        reveal_strlit("url");
        reveal_strlit("path");
        assert("url"@ != "path"@) by {
            assert("url"@.len() == 3);
            assert("path"@.len() == 4);
        }
        lemma_set_key(base, "url"@, Doc::Str(urls[i]), "url"@);
        lemma_set_key(inner, "path"@, Doc::Str(gen_provider_path(name)), "url"@);
        assert(lookup(outer, "url"@) == Doc::Str(urls[i]));
        assert(lookup(outer, "path"@) == Doc::Str(gen_provider_path(name)));
    }
}

/// Group fan-out: one parameterized group declaring one provider key that
/// the provider pass registered with names `ns` expands to exactly one
/// generated group per name, in index order. The group for name `n` is
/// named `{group}-{n}`, carries the group's body without `tpl_param`, and
/// its `use` holds exactly `n`.
pub proof fn lemma_group_fan_out(g: Doc, pk: Seq<char>, pidx: NameIndex)
    requires
        is_parameterized(g),
        group_param_ok(g->Mapping_0),
        group_has_name(g->Mapping_0),
        group_pk_keys(g->Mapping_0) == seq![pk],
        has_key(pidx, pk),
    ensures
        ({
            let m = g->Mapping_0;
            let gname = lookup(m, "name"@)->Str_0;
            let base = remove_key(m, "tpl_param"@);
            let ns = lookup(pidx, pk);
            let r = expand_groups(seq![g], pidx);
            &&& r is Ok
            &&& r->Ok_0.0.len() == ns.len()
            &&& (forall|i: int|
                0 <= i < ns.len() ==> (#[trigger] r->Ok_0.0[i]) is Mapping && lookup(
                    r->Ok_0.0[i]->Mapping_0,
                    "name"@,
                ) == Doc::Str(gname + "-"@ + ns[i]) && lookup(r->Ok_0.0[i]->Mapping_0, "use"@)
                    == Doc::List(seq![Doc::Str(ns[i])]))
            &&& r->Ok_0.1 == seq![(gname, gen_group_names(gname, seq![pk], pidx))]
        }),
{
    let s = seq![g];
    let m = g->Mapping_0;
    let gname = lookup(m, "name"@)->Str_0;
    let base = remove_key(m, "tpl_param"@);
    let ns = lookup(pidx, pk);
    let pks = seq![pk];
    assert(s.drop_last() =~= Seq::<Doc>::empty());
    assert(pks.drop_last() =~= Seq::<Seq<char>>::empty());
    let r = expand_groups(s, pidx);
    assert(expand_groups(s.drop_last(), pidx) == Ok::<(Seq<Doc>, NameIndex), ExpandError>(
        (Seq::empty(), Seq::empty()),
    ));
    assert(s.last() == g);
    assert(pks.last() == pk);
    assert(gen_groups(base, gname, pks.drop_last(), pidx) =~= Seq::<Doc>::empty());
    assert(gen_group_names(gname, pks.drop_last(), pidx) =~= Seq::<Seq<char>>::empty());
    assert(gen_groups(base, gname, pks, pidx) =~= gen_groups_pk(base, gname, pk, pidx));
    assert(gen_group_names(gname, pks, pidx) =~= gen_group_names_pk(gname, pk, pidx));
    assert(r is Ok);
    assert(r->Ok_0.0 =~= gen_groups_pk(base, gname, pk, pidx));
    assert(r->Ok_0.1 =~= seq![(gname, gen_group_names(gname, pks, pidx))]);
    assert forall|i: int| 0 <= i < ns.len() implies (#[trigger] r->Ok_0.0[i]) is Mapping && lookup(
        r->Ok_0.0[i]->Mapping_0,
        "name"@,
    ) == Doc::Str(gname + "-"@ + ns[i]) && lookup(r->Ok_0.0[i]->Mapping_0, "use"@) == Doc::List(
        seq![Doc::Str(ns[i])],
    ) by {
        assert(r->Ok_0.0[i] == gen_group(base, gname, ns[i]));
        let inner = set_key(base, "name"@, Doc::Str(gen_group_name(gname, ns[i])));
        reveal_strlit("name");
        reveal_strlit("use");
        assert("name"@ != "use"@) by {
            assert("name"@.len() == 4);
            assert("use"@.len() == 3);
        }
        lemma_set_key(base, "name"@, Doc::Str(gen_group_name(gname, ns[i])), "name"@);
        lemma_set_key(inner, "use"@, Doc::List(seq![Doc::Str(ns[i])]), "name"@);
    }
}

/// Placeholder resolution: a sequence item of the exact form `<key>` with
/// `key` registered in the index expands in place to the full registered
/// name list; with `key` unregistered the resolution fails with
/// `UnknownPlaceholder`.
pub proof fn lemma_placeholder_resolution(k: Seq<char>, idx: NameIndex)
    ensures
        ({
            let ph = seq!['<'] + k + seq!['>'];
            &&& has_key(idx, k) ==> resolve_items(seq![Doc::Str(ph)], idx) == Ok::<
                Seq<Doc>,
                ExpandError,
            >(names_docs(lookup(idx, k)))
            &&& !has_key(idx, k) ==> resolve_items(seq![Doc::Str(ph)], idx) == Err::<
                Seq<Doc>,
                ExpandError,
            >(ExpandError::UnknownPlaceholder)
        }),
{
    let ph = seq!['<'] + k + seq!['>'];
    assert(ph.len() == k.len() + 2);
    assert(ph[0] == '<');
    assert(ph[ph.len() - 1] == '>');
    assert(is_placeholder(ph));
    assert(placeholder_key(ph) =~= k);
    let s = seq![Doc::Str(ph)];
    assert(s.drop_last() =~= Seq::<Doc>::empty());
    assert(s.last() == Doc::Str(ph));
    assert(resolve_items(s.drop_last(), idx) == Ok::<Seq<Doc>, ExpandError>(Seq::empty()));
    if has_key(idx, k) {
        assert(Seq::<Doc>::empty() + names_docs(lookup(idx, k)) =~= names_docs(lookup(idx, k)));
    }
}

/// Non-parameterized passthrough, provider pass: an entry without
/// `tpl_param` appears unchanged in the output.
pub proof fn lemma_provider_passthrough(entries: Entries, urls: Seq<Seq<char>>, i: int)
    requires
        0 <= i < entries.len(),
        !is_parameterized(entries[i].1),
    ensures
        expand_providers(entries, urls).0.contains(entries[i]),
    decreases entries.len(),
{
    let r = expand_providers(entries, urls);
    let pre = expand_providers(entries.drop_last(), urls);
    if i == entries.len() - 1 {
        assert(r.0 == pre.0.push(entries[i]));
        assert(r.0[r.0.len() - 1] == entries[i]);
    } else {
        assert(entries.drop_last()[i] == entries[i]);
        lemma_provider_passthrough(entries.drop_last(), urls, i);
        let j = choose|j: int| 0 <= j < pre.0.len() && pre.0[j] == entries[i];
        assert(r.0[j] == entries[i]);
    }
}

/// Non-parameterized passthrough, group pass: a group without `tpl_param`
/// appears unchanged in the output.
pub proof fn lemma_group_passthrough(gs: Seq<Doc>, pidx: NameIndex, i: int)
    requires
        0 <= i < gs.len(),
        !is_parameterized(gs[i]),
        expand_groups(gs, pidx) is Ok,
    ensures
        expand_groups(gs, pidx)->Ok_0.0.contains(gs[i]),
    decreases gs.len(),
{
    let r = expand_groups(gs, pidx);
    let pre = expand_groups(gs.drop_last(), pidx);
    if i == gs.len() - 1 {
        assert(r->Ok_0.0 == pre->Ok_0.0.push(gs[i]));
        assert(r->Ok_0.0[r->Ok_0.0.len() - 1] == gs[i]);
    } else {
        assert(gs.drop_last()[i] == gs[i]);
        lemma_group_passthrough(gs.drop_last(), pidx, i);
        let j = choose|j: int| 0 <= j < pre->Ok_0.0.len() && pre->Ok_0.0[j] == gs[i];
        assert(r->Ok_0.0[j] == gs[i]);
    }
}

/// Sequence items without placeholders resolve to themselves.
pub proof fn lemma_resolve_items_identity(items: Seq<Doc>, idx: NameIndex)
    requires
        forall|i: int|
            0 <= i < items.len() ==> !((#[trigger] items[i]) is Str && is_placeholder(
                items[i]->Str_0,
            )),
    ensures
        resolve_items(items, idx) == Ok::<Seq<Doc>, ExpandError>(items),
    decreases items.len(),
{
    if items.len() > 0 {
        assert forall|i: int| 0 <= i < items.drop_last().len() implies !((#[trigger] items.drop_last()[i])
            is Str && is_placeholder(items.drop_last()[i]->Str_0)) by {
            assert(items.drop_last()[i] == items[i]);
        }
        lemma_resolve_items_identity(items.drop_last(), idx);
        assert(!(items.last() is Str && is_placeholder(items.last()->Str_0))) by {
            assert(items.last() == items[items.len() - 1]);
        }
        assert(items.drop_last().push(items.last()) =~= items);
    } else {
        assert(items =~= Seq::<Doc>::empty());
    }
}

/// A field with nothing to resolve: absent, not a sequence, or a sequence
/// without placeholder items.
pub open spec fn plain_field(g: Doc, k: Seq<char>) -> bool {
    g is Mapping && has_key(g->Mapping_0, k) && lookup(g->Mapping_0, k) is List ==> forall|i: int|
        0 <= i < lookup(g->Mapping_0, k)->List_0.len() ==> !((#[trigger] lookup(
            g->Mapping_0,
            k,
        )->List_0[i]) is Str && is_placeholder(lookup(g->Mapping_0, k)->List_0[i]->Str_0))
}

/// Writing a key's own value back leaves the mapping unchanged.
pub proof fn lemma_set_key_same<V>(s: Seq<(Seq<char>, V)>, k: Seq<char>)
    requires
        has_key(s, k),
    ensures
        set_key(s, k, lookup(s, k)) == s,
{
    lemma_key_idx(s, k);
    assert(set_key(s, k, lookup(s, k)) =~= s);
}

/// Non-parameterized passthrough, resolution pass: a group whose `use`
/// and `proxies` fields hold no placeholders resolves to itself.
pub proof fn lemma_resolve_group_identity(g: Doc, pidx: NameIndex, gidx: NameIndex)
    requires
        plain_field(g, "use"@),
        plain_field(g, "proxies"@),
    ensures
        resolve_group(g, pidx, gidx) == Ok::<Doc, ExpandError>(g),
{
    if g is Mapping {
        let m = g->Mapping_0;
        if has_key(m, "use"@) && lookup(m, "use"@) is List {
            lemma_resolve_items_identity(lookup(m, "use"@)->List_0, pidx);
            lemma_set_key_same(m, "use"@);
        }
        assert(resolve_field(m, "use"@, pidx) == Ok::<Entries, ExpandError>(m));
        if has_key(m, "proxies"@) && lookup(m, "proxies"@) is List {
            lemma_resolve_items_identity(lookup(m, "proxies"@)->List_0, gidx);
            lemma_set_key_same(m, "proxies"@);
        }
        assert(resolve_field(m, "proxies"@, gidx) == Ok::<Entries, ExpandError>(m));
    }
}

/// The resolution pass works group by group: on success it has exactly
/// one output group per input group, each the resolution of its input.
pub proof fn lemma_resolve_groups_index(gs: Seq<Doc>, pidx: NameIndex, gidx: NameIndex, i: int)
    requires
        resolve_groups(gs, pidx, gidx) is Ok,
        0 <= i < gs.len(),
    ensures
        resolve_groups(gs, pidx, gidx)->Ok_0.len() == gs.len(),
        resolve_group(gs[i], pidx, gidx) is Ok,
        resolve_groups(gs, pidx, gidx)->Ok_0[i] == resolve_group(gs[i], pidx, gidx)->Ok_0,
    decreases gs.len(),
{
    let pre = resolve_groups(gs.drop_last(), pidx, gidx);
    if gs.len() > 0 {
        if i == gs.len() - 1 {
            if gs.len() > 1 {
                lemma_resolve_groups_index(gs.drop_last(), pidx, gidx, 0);
            }
            assert(pre->Ok_0.len() == gs.drop_last().len()) by {
                if gs.drop_last().len() > 0 {
                    lemma_resolve_groups_index(gs.drop_last(), pidx, gidx, 0);
                }
            }
        } else {
            assert(gs.drop_last()[i] == gs[i]);
            lemma_resolve_groups_index(gs.drop_last(), pidx, gidx, i);
        }
    }
}

/// Every generated run is empty when every registered name list is.
proof fn lemma_gen_groups_empty(base: Entries, gname: Seq<char>, pks: Seq<Seq<char>>, pidx: NameIndex)
    requires
        forall|j: int| 0 <= j < pidx.len() ==> (#[trigger] pidx[j].1).len() == 0,
    ensures
        gen_groups(base, gname, pks, pidx).len() == 0,
        gen_group_names(gname, pks, pidx).len() == 0,
    decreases pks.len(),
{
    if pks.len() > 0 {
        lemma_gen_groups_empty(base, gname, pks.drop_last(), pidx);
        let pk = pks.last();
        if has_key(pidx, pk) {
            lemma_key_idx(pidx, pk);
            assert(lookup(pidx, pk).len() == 0);
        }
        assert(gen_groups_pk(base, gname, pk, pidx) =~= Seq::<Doc>::empty());
        assert(gen_group_names_pk(gname, pk, pidx) =~= Seq::<Seq<char>>::empty());
    }
}

/// Empty source list, provider pass: with no sources, the output holds
/// exactly the entries without `tpl_param`, unchanged and in order, and
/// every parameterized key is registered with an empty name list — no
/// error arises.
pub proof fn lemma_empty_sources_providers(entries: Entries)
    ensures
        ({
            let r = expand_providers(entries, Seq::empty());
            &&& r.0 == entries.filter(|e: (Seq<char>, Doc)| !is_parameterized(e.1))
            &&& forall|j: int| 0 <= j < r.1.len() ==> (#[trigger] r.1[j].1).len() == 0
        }),
    decreases entries.len(),
{
    reveal(Seq::filter);
    let pred = |e: (Seq<char>, Doc)| !is_parameterized(e.1);
    let r = expand_providers(entries, Seq::empty());
    if entries.len() == 0 {
        assert(entries =~= Seq::<(Seq<char>, Doc)>::empty());
        assert(r.0 =~= entries.filter(pred));
    } else {
        lemma_empty_sources_providers(entries.drop_last());
        let pre = expand_providers(entries.drop_last(), Seq::empty());
        let e = entries.last();
        assert(pre.0 == entries.drop_last().filter(pred));
        if is_parameterized(e.1) {
            assert(gen_providers(remove_key(e.1->Mapping_0, "tpl_param"@), e.0, Seq::empty())
                =~= Seq::<(Seq<char>, Doc)>::empty());
            assert(r.0 =~= pre.0);
            assert(!pred(e));
            assert(entries.filter(pred) == entries.drop_last().filter(pred));
            assert(gen_names(e.0, 0) =~= Seq::<Seq<char>>::empty());
            assert forall|j: int| 0 <= j < r.1.len() implies (#[trigger] r.1[j].1).len() == 0 by {
                if j < r.1.len() - 1 {
                    assert(r.1[j] == pre.1[j]);
                } else {
                    assert(r.1[j] == (e.0, gen_names(e.0, 0)));
                }
            }
        } else {
            assert(pred(e));
            assert(r.0 == pre.0.push(e));
            assert(entries.filter(pred) == entries.drop_last().filter(pred).push(e));
            assert forall|j: int| 0 <= j < r.1.len() implies (#[trigger] r.1[j].1).len() == 0 by {
                assert(r.1[j] == pre.1[j]);
            }
        }
        assert(r.0 == entries.filter(pred));
    }
}

/// Empty source list, group pass: with every registered name list empty,
/// a well-formed template's groups expand to exactly the groups without
/// `tpl_param`, with no error and nothing generated.
pub proof fn lemma_empty_sources_groups(gs: Seq<Doc>, pidx: NameIndex)
    requires
        expand_groups(gs, pidx) is Ok,
        forall|j: int| 0 <= j < pidx.len() ==> (#[trigger] pidx[j].1).len() == 0,
    ensures
        expand_groups(gs, pidx)->Ok_0.0 == gs.filter(|g: Doc| !is_parameterized(g)),
    decreases gs.len(),
{
    reveal(Seq::filter);
    let pred = |g: Doc| !is_parameterized(g);
    let r = expand_groups(gs, pidx);
    if gs.len() == 0 {
        assert(gs =~= Seq::<Doc>::empty());
        assert(r->Ok_0.0 =~= gs.filter(pred));
    } else {
        lemma_empty_sources_groups(gs.drop_last(), pidx);
        let pre = expand_groups(gs.drop_last(), pidx);
        let g = gs.last();
        assert(pre->Ok_0.0 == gs.drop_last().filter(pred));
        if is_parameterized(g) {
            let m = g->Mapping_0;
            lemma_gen_groups_empty(remove_key(m, "tpl_param"@), lookup(m, "name"@)->Str_0,
                group_pk_keys(m), pidx);
            assert(r->Ok_0.0 =~= pre->Ok_0.0);
            assert(!pred(g));
            assert(gs.filter(pred) == gs.drop_last().filter(pred));
        } else {
            assert(pred(g));
            assert(r->Ok_0.0 == pre->Ok_0.0.push(g));
            assert(gs.filter(pred) == gs.drop_last().filter(pred).push(g));
        }
        assert(r->Ok_0.0 == gs.filter(pred));
    }
}

} // verus!
