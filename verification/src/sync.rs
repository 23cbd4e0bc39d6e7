//! Profile synchronization planning: deciding whether a stored profile is
//! a subscription pointer or a concrete document, scanning a concrete
//! document for the network resources it declares, and folding the
//! per-resource fetch outcomes into a report.
//!
//! The fetches themselves are input/output and stay with the caller, which
//! performs them strictly in the order this module plans, and hands the
//! outcomes back.

use vstd::prelude::*;

use crate::yaml::Yaml;
use crate::yaml::Doc;
use crate::yaml::{entries_doc, has_key, lookup, parse_document_str, parsed_doc, yaml_document};
use crate::yaml::{lemma_entries_doc_len, lemma_entries_doc_index};
use crate::yaml::{map_get, str_eq};
use crate::sources::{trim_spec, trim_str};

verus! {

/// A declared network resource: where to fetch from and where to store.
#[derive(Debug, PartialEq, Eq)]
pub struct NetResource {
    pub url: String,
    pub path: String,
}

/// Failures that abort a whole synchronization. A single resource fetch
/// that fails does not: it is reported in the sync report instead.
#[derive(Debug, PartialEq, Eq, Clone, Copy)]
pub enum SyncError {
    /// A local file could not be read or written.
    Io,
    /// The synchronized profile is not a structured document.
    NotYaml,
    /// The profile's own subscription fetch failed; it has no fallback.
    PrimaryFetchFailed,
}

/// The outcome of a synchronization: which declared resources were
/// refreshed and which were not, each in attempt order.
#[derive(Debug, PartialEq, Eq)]
pub struct SyncReport {
    pub succeeded: Vec<NetResource>,
    pub failed: Vec<NetResource>,
}

/// View of a resource vector as (url, path) pairs.
pub open spec fn resources_view(s: Seq<NetResource>) -> Seq<(Seq<char>, Seq<char>)> {
    Seq::new(s.len(), |i: int| (s[i].url@, s[i].path@))
}

/// The resource a provider entry declares: present exactly when the entry
/// is a mapping whose `type` is the string `http` and whose `url` and
/// `path` are strings.
pub open spec fn entry_resource(v: Doc) -> Option<(Seq<char>, Seq<char>)> {
    if v is Mapping && has_key(v->Mapping_0, "type"@) && lookup(v->Mapping_0, "type"@)
        == Doc::Str("http"@) && has_key(v->Mapping_0, "url"@) && lookup(v->Mapping_0, "url"@) is Str
        && has_key(v->Mapping_0, "path"@) && lookup(v->Mapping_0, "path"@) is Str {
        Some(
            (lookup(v->Mapping_0, "url"@)->Str_0, lookup(v->Mapping_0, "path"@)->Str_0),
        )
    } else {
        None
    }
}

/// The resources declared by a provider mapping's entries, in entry order.
pub open spec fn scan_entries(es: Seq<(Seq<char>, Doc)>) -> Seq<(Seq<char>, Seq<char>)>
    decreases es.len(),
{
    if es.len() == 0 {
        Seq::empty()
    } else {
        scan_entries(es.drop_last()) + match entry_resource(es.last().1) {
            Some(r) => seq![r],
            None => Seq::empty(),
        }
    }
}

/// The resources declared under one top-level key of a document, when that
/// key holds a mapping.
pub open spec fn scan_key(d: Doc, k: Seq<char>) -> Seq<(Seq<char>, Seq<char>)> {
    if d is Mapping && has_key(d->Mapping_0, k) && lookup(d->Mapping_0, k) is Mapping {
        scan_entries(lookup(d->Mapping_0, k)->Mapping_0)
    } else {
        Seq::empty()
    }
}

/// All resources a concrete profile declares: its `proxy-providers`, and
/// its `rule-providers` as well when every resource kind is wanted.
pub open spec fn scan_resources(d: Doc, fetch_all: bool) -> Seq<(Seq<char>, Seq<char>)> {
    scan_key(d, "proxy-providers"@) + if fetch_all {
        scan_key(d, "rule-providers"@)
    } else {
        Seq::empty()
    }
}

/// The resource one provider entry declares, if any.
fn entry_resource_exec(v: &Yaml) -> (r: Option<NetResource>)
    ensures
        match r {
            Some(nr) => entry_resource(v.doc()) == Some((nr.url@, nr.path@)),
            None => entry_resource(v.doc()) is None,
        },
{
    match v {
        Yaml::Mapping(es) => {
            let t_ok = match map_get(es, "type") {
                Some(t) => match t {
                    Yaml::Str(ts) => str_eq(ts.as_str(), "http"),
                    _ => false,
                },
                None => false,
            };
            if !t_ok {
                return None;
            }
            let url = match map_get(es, "url") {
                Some(u) => match u {
                    Yaml::Str(us) => us.clone(),
                    _ => {
                        return None;
                    },
                },
                None => {
                    return None;
                },
            };
            let path = match map_get(es, "path") {
                Some(p) => match p {
                    Yaml::Str(ps) => ps.clone(),
                    _ => {
                        return None;
                    },
                },
                None => {
                    return None;
                },
            };
            Some(NetResource { url, path })
        },
        _ => None,
    }
}

/// Append the resources declared under one top-level key of a document.
fn scan_map(doc: &Yaml, key: &str, out: &mut Vec<NetResource>)
    ensures
        resources_view(final(out)@) == resources_view(old(out)@) + scan_key(doc.doc(), key@),
{
    let ghost pre = resources_view(old(out)@);
    let pes = match doc {
        Yaml::Mapping(es) => match map_get(es, key) {
            Some(p) => match p {
                Yaml::Mapping(v) => v,
                _ => {
                    proof {
                        assert(pre + scan_key(doc.doc(), key@) =~= pre);
                    }
                    return ;
                },
            },
            None => {
                proof {
                    assert(pre + scan_key(doc.doc(), key@) =~= pre);
                }
                return ;
            },
        },
        _ => {
            proof {
                assert(pre + scan_key(doc.doc(), key@) =~= pre);
            }
            return ;
        },
    };
    let ghost src = entries_doc(pes@);
    proof {
        broadcast use {lemma_entries_doc_len, lemma_entries_doc_index};

        assert(scan_key(doc.doc(), key@) == scan_entries(src));
        assert(src.take(0) =~= Seq::<(Seq<char>, Doc)>::empty());
        assert(pre + scan_entries(src.take(0)) =~= pre);
    }
    let n = pes.len();
    let mut i: usize = 0;
    while i < n
        invariant
            i <= n,
            n == pes@.len(),
            src == entries_doc(pes@),
            src.len() == n,
            resources_view(out@) == pre + scan_entries(src.take(i as int)),
        decreases n - i,
    {
        proof {
            broadcast use {lemma_entries_doc_len, lemma_entries_doc_index};

            assert(src[i as int] == (pes@[i as int].0@, pes@[i as int].1.doc()));
            assert(src.take(i + 1).drop_last() =~= src.take(i as int));
            assert(src.take(i + 1).last() == src[i as int]);
        }
        match entry_resource_exec(&pes[i].1) {
            Some(nr) => {
                let ghost ob = out@;
                out.push(nr);
                proof {
                    assert(resources_view(out@) =~= resources_view(ob).push(
                        entry_resource(src[i as int].1)->0,
                    ));
                    assert(resources_view(out@) =~= pre + scan_entries(src.take(i + 1)));
                }
            },
            None => {
                proof {
                    assert(scan_entries(src.take(i + 1)) =~= scan_entries(src.take(i as int)));
                }
            },
        }
        i += 1;
    }
    proof {
        assert(src.take(n as int) =~= src);
    }
}

/// The network resources a concrete profile declares, in discovery order:
/// `proxy-providers` first, then, when every kind is wanted,
/// `rule-providers`.
pub fn scan_network_resources(doc: &Yaml, fetch_all: bool) -> (r: Vec<NetResource>)
    ensures
        resources_view(r@) == scan_resources(doc.doc(), fetch_all),
{
    let mut out: Vec<NetResource> = Vec::new();
    proof {
        assert(resources_view(out@) =~= Seq::<(Seq<char>, Seq<char>)>::empty());
    }
    scan_map(doc, "proxy-providers", &mut out);
    if fetch_all {
        scan_map(doc, "rule-providers", &mut out);
    }
    proof {
        assert(resources_view(out@) =~= scan_resources(doc.doc(), fetch_all));
    }
    out
}

/// The full fetch plan of a synchronization: the profile's own
/// subscription resource first, when it is a pointer, then everything the
/// concrete document declares.
pub fn sync_resources(primary: Option<NetResource>, doc: &Yaml, fetch_all: bool) -> (r: Vec<
    NetResource,
>)
    ensures
        resources_view(r@) == (match primary {
            Some(p) => seq![(p.url@, p.path@)],
            None => Seq::empty(),
        }) + scan_resources(doc.doc(), fetch_all),
{
    let ghost first: Seq<(Seq<char>, Seq<char>)> = if primary is Some {
        seq![(primary->0.url@, primary->0.path@)]
    } else {
        Seq::empty()
    };
    let mut out: Vec<NetResource> = Vec::new();
    match primary {
        Some(p) => {
            out.push(p);
        },
        None => {},
    }
    proof {
        assert(resources_view(out@) =~= first);
    }
    scan_map(doc, "proxy-providers", &mut out);
    if fetch_all {
        scan_map(doc, "rule-providers", &mut out);
    }
    proof {
        assert(resources_view(out@) =~= first + scan_resources(doc.doc(), fetch_all));
    }
    out
}

/// The resources whose outcome was `want`, in attempt order.
pub open spec fn select_resources(
    rs: Seq<(Seq<char>, Seq<char>)>,
    ok: Seq<bool>,
    want: bool,
) -> Seq<(Seq<char>, Seq<char>)>
    recommends
        rs.len() == ok.len(),
    decreases rs.len(),
{
    if rs.len() == 0 {
        Seq::empty()
    } else {
        select_resources(rs.drop_last(), ok.drop_last(), want) + if ok[rs.len() - 1] == want {
            seq![rs.last()]
        } else {
            Seq::empty()
        }
    }
}

/// Fold per-resource fetch outcomes into a report: resource `i` succeeded
/// exactly when `results[i]` holds. Order of attempts is kept on both
/// sides, and no resource is dropped.
pub fn build_sync_report(resources: &Vec<NetResource>, results: &Vec<bool>) -> (r: SyncReport)
    requires
        resources@.len() == results@.len(),
    ensures
        resources_view(r.succeeded@) == select_resources(
            resources_view(resources@),
            results@,
            true,
        ),
        resources_view(r.failed@) == select_resources(resources_view(resources@), results@, false),
        r.succeeded@.len() + r.failed@.len() == resources@.len(),
{
    let ghost rv = resources_view(resources@);
    let mut succeeded: Vec<NetResource> = Vec::new();
    let mut failed: Vec<NetResource> = Vec::new();
    let n = resources.len();
    proof {
        assert(rv.take(0) =~= Seq::<(Seq<char>, Seq<char>)>::empty());
        assert(results@.take(0) =~= Seq::<bool>::empty());
        assert(resources_view(succeeded@) =~= Seq::<(Seq<char>, Seq<char>)>::empty());
        assert(resources_view(failed@) =~= Seq::<(Seq<char>, Seq<char>)>::empty());
    }
    let mut i: usize = 0;
    while i < n
        invariant
            i <= n,
            n == resources@.len(),
            n == results@.len(),
            rv == resources_view(resources@),
            rv.len() == n,
            resources_view(succeeded@) == select_resources(rv.take(i as int), results@.take(i as int), true),
            resources_view(failed@) == select_resources(rv.take(i as int), results@.take(i as int), false),
            succeeded@.len() + failed@.len() == i,
        decreases n - i,
    {
        let nr = &resources[i];
        let copy = NetResource { url: nr.url.clone(), path: nr.path.clone() };
        proof {
            assert((copy.url@, copy.path@) == rv[i as int]);
            assert(rv.take(i + 1).drop_last() =~= rv.take(i as int));
            assert(results@.take(i + 1).drop_last() =~= results@.take(i as int));
            assert(rv.take(i + 1).last() == rv[i as int]);
        }
        if results[i] {
            let ghost ob = succeeded@;
            succeeded.push(copy);
            proof {
                assert(resources_view(succeeded@) =~= resources_view(ob).push(rv[i as int]));
                assert(resources_view(succeeded@) =~= select_resources(
                    rv.take(i + 1),
                    results@.take(i + 1),
                    true,
                ));
                assert(resources_view(failed@) =~= select_resources(
                    rv.take(i + 1),
                    results@.take(i + 1),
                    false,
                ));
            }
        } else {
            let ghost ob = failed@;
            failed.push(copy);
            proof {
                assert(resources_view(failed@) =~= resources_view(ob).push(rv[i as int]));
                assert(resources_view(failed@) =~= select_resources(
                    rv.take(i + 1),
                    results@.take(i + 1),
                    false,
                ));
                assert(resources_view(succeeded@) =~= select_resources(
                    rv.take(i + 1),
                    results@.take(i + 1),
                    true,
                ));
            }
        }
        i += 1;
    }
    proof {
        assert(rv.take(n as int) =~= rv);
        assert(results@.take(n as int) =~= results@);
    }
    SyncReport { succeeded, failed }
}

/// The subscription URL a pointer profile holds: its trimmed content.
pub fn pointer_url(content: &str) -> (r: String)
    ensures
        r@ == trim_spec(content@),
{
    trim_str(content)
}

/// Parse the synchronized profile's text, which must by then be a
/// structured document; anything else is the `NotYaml` failure. On
/// success the result is that text's document, ready for the resource
/// scan.
pub fn check_profile_document(text: &str) -> (r: Result<Yaml, SyncError>)
    ensures
        r is Ok <==> yaml_document(text@),
        r matches Ok(d) ==> d.doc() == parsed_doc(text@) && d.doc() is Mapping,
        r matches Err(e) ==> e == SyncError::NotYaml,
{
    match parse_document_str(text) {
        Ok(d) => Ok(d),
        Err(_) => Err(SyncError::NotYaml),
    }
}

} // verus!
