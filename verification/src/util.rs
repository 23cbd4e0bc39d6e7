//! The utility core of the front end: the installation's paths and
//! configured commands, and the pure path and command construction behind
//! profile handling and service control. Spawning the commands and
//! touching the file system stay with the caller.

use vstd::prelude::*;

use crate::yaml::strs_view;
use crate::yaml::{is_structured_document, str_starts_with, yaml_document};

verus! {

/// A path under a directory, joined with a single separator.
pub open spec fn join_path(dir: Seq<char>, name: Seq<char>) -> Seq<char> {
    dir + seq!['/'] + name
}

/// Join a file name onto a directory path.
pub fn join2(dir: &str, name: &str) -> (r: String)
    ensures
        r@ == join_path(dir@, name@),
{
    let mut s = dir.to_owned();
    s.append("/");
    s.append(name);
    proof {
        reveal_strlit("/");
        assert(s@ =~= join_path(dir@, name@));
    }
    s
}

/// Index of the last `.` of a name, or -1 when it has none.
pub open spec fn last_dot(s: Seq<char>) -> int
    decreases s.len(),
{
    if s.len() == 0 {
        -1
    } else if s.last() == '.' {
        s.len() - 1
    } else {
        last_dot(s.drop_last())
    }
}

/// `last_dot` finds exactly the last dot.
pub proof fn lemma_last_dot(s: Seq<char>)
    ensures
        -1 <= last_dot(s) < s.len(),
        last_dot(s) >= 0 ==> s[last_dot(s)] == '.',
        forall|j: int| last_dot(s) < j < s.len() ==> s[j] != '.',
    decreases s.len(),
{
    if s.len() > 0 && s.last() != '.' {
        lemma_last_dot(s.drop_last());
        assert forall|j: int| last_dot(s) < j < s.len() implies s[j] != '.' by {
            if j < s.len() - 1 {
                assert(s.drop_last()[j] == s[j]);
            }
        }
    }
}

/// A name with its extension replaced by `yaml`: everything after the
/// last dot goes, unless the only dot leads the name; then `.yaml` is
/// appended.
pub open spec fn with_yaml_ext(s: Seq<char>) -> Seq<char> {
    (if last_dot(s) > 0 {
        s.take(last_dot(s))
    } else {
        s
    }) + ".yaml"@
}

/// Replace a name's extension with `yaml`.
pub fn with_yaml_ext_str(name: &str) -> (r: String)
    ensures
        r@ == with_yaml_ext(name@),
{
    let n = name.unicode_len();
    let mut j: usize = n;
    while j > 0 && name.get_char(j - 1) != '.'
        invariant
            j <= n,
            n == name@.len(),
            forall|t: int| j <= t < n ==> name@[t] != '.',
        decreases j,
    {
        j -= 1;
    }
    proof {
        lemma_last_dot(name@);
        let ld = last_dot(name@);
        if j > 0 {
            assert(name@[j - 1] == '.');
            assert(ld == j - 1) by {
                if ld < j - 1 {
                    assert(name@[j - 1] != '.');
                }
                if ld > j - 1 {
                    assert(name@[ld] != '.');
                }
            }
        } else {
            assert(ld == -1) by {
                if ld >= 0 {
                    assert(name@[ld] != '.');
                }
            }
        }
    }
    let mut s: String;
    if j > 1 {
        s = name.substring_char(0, j - 1).to_owned();
        proof {
            assert(name@.subrange(0, j - 1) =~= name@.take(last_dot(name@)));
        }
    } else {
        s = name.to_owned();
    }
    s.append(".yaml");
    proof {
        assert(s@ =~= with_yaml_ext(name@));
    }
    s
}

/// The configured command with every `%s` replaced by the path.
pub open spec fn subst_path(s: Seq<char>, path: Seq<char>) -> Seq<char>
    decreases s.len(),
{
    if s.len() < 2 {
        s
    } else if s[0] == '%' && s[1] == 's' {
        path + subst_path(s.skip(2), path)
    } else {
        seq![s[0]] + subst_path(s.skip(1), path)
    }
}

/// Replace every `%s` of a configured command with the path.
pub fn subst_path_str(cmd: &str, path: &str) -> (r: String)
    ensures
        r@ == subst_path(cmd@, path@),
{
    let n = cmd.unicode_len();
    let mut out = String::new();
    proof {
        assert(cmd@.skip(0) =~= cmd@);
        assert(out@ + subst_path(cmd@.skip(0), path@) =~= subst_path(cmd@, path@));
    }
    let mut i: usize = 0;
    while i < n
        invariant
            i <= n,
            n == cmd@.len(),
            out@ + subst_path(cmd@.skip(i as int), path@) == subst_path(cmd@, path@),
        decreases n - i,
    {
        let ghost rem = cmd@.skip(i as int);
        if i + 1 < n && cmd.get_char(i) == '%' && cmd.get_char(i + 1) == 's' {
            out.append(path);
            proof {
                assert(rem[0] == '%' && rem[1] == 's');
                assert(rem.skip(2) =~= cmd@.skip(i + 2));
                assert(out@ + subst_path(cmd@.skip(i + 2), path@) =~= subst_path(cmd@, path@));
            }
            i += 2;
        } else {
            let c = cmd.substring_char(i, i + 1);
            out.append(c);
            proof {
                assert(c@ =~= seq![rem[0]]);
                assert(rem.skip(1) =~= cmd@.skip(i + 1));
                if rem.len() >= 2 {
                    assert(!(rem[0] == '%' && rem[1] == 's'));
                    assert(subst_path(rem, path@) == seq![rem[0]] + subst_path(rem.skip(1), path@));
                } else {
                    assert(rem =~= seq![rem[0]]);
                    assert(subst_path(rem.skip(1), path@) =~= Seq::<char>::empty());
                    assert(subst_path(rem, path@) =~= seq![rem[0]] + subst_path(
                        rem.skip(1),
                        path@,
                    ));
                }
                assert(out@ + subst_path(cmd@.skip(i + 1), path@) =~= subst_path(cmd@, path@));
            }
            i += 1;
        }
    }
    proof {
        assert(cmd@.skip(n as int) =~= Seq::<char>::empty());
        assert(out@ =~= subst_path(cmd@, path@));
    }
    out
}

/// Lexicographic order on texts, by character value: the order name
/// listings are presented in.
pub open spec fn lex_le(a: Seq<char>, b: Seq<char>) -> bool
    decreases a.len(),
{
    if a.len() == 0 {
        true
    } else if b.len() == 0 {
        false
    } else if a[0] == b[0] {
        lex_le(a.skip(1), b.skip(1))
    } else {
        (a[0] as u32) < (b[0] as u32)
    }
}

/// The order is total.
pub proof fn lemma_lex_le_total(a: Seq<char>, b: Seq<char>)
    ensures
        lex_le(a, b) || lex_le(b, a),
    decreases a.len(),
{
    if a.len() == 0 {
    } else if b.len() == 0 {
    } else if a[0] == b[0] {
        lemma_lex_le_total(a.skip(1), b.skip(1));
    } else {
        assert((a[0] as u32) != (b[0] as u32)) by {
            if (a[0] as u32) == (b[0] as u32) {
                vstd::utf8::char_u32_cast(a[0], a[0] as u32);
                vstd::utf8::char_u32_cast(b[0], b[0] as u32);
            }
        }
        assert(lex_le(a, b) == ((a[0] as u32) < (b[0] as u32)));
        assert(lex_le(b, a) == ((b[0] as u32) < (a[0] as u32)));
    }
}

/// The order is transitive.
pub proof fn lemma_lex_le_trans(a: Seq<char>, b: Seq<char>, c: Seq<char>)
    requires
        lex_le(a, b),
        lex_le(b, c),
    ensures
        lex_le(a, c),
    decreases a.len(),
{
    if a.len() > 0 && b.len() > 0 && c.len() > 0 && a[0] == b[0] && b[0] == c[0] {
        lemma_lex_le_trans(a.skip(1), b.skip(1), c.skip(1));
    }
}

/// Whether `a` sorts no later than `b`.
pub fn str_le(a: &str, b: &str) -> (r: bool)
    ensures
        r == lex_le(a@, b@),
{
    let la = a.unicode_len();
    let lb = b.unicode_len();
    proof {
        assert(a@.skip(0) =~= a@);
        assert(b@.skip(0) =~= b@);
    }
    let mut i: usize = 0;
    while i < la && i < lb
        invariant
            i <= la,
            i <= lb,
            la == a@.len(),
            lb == b@.len(),
            lex_le(a@, b@) == lex_le(a@.skip(i as int), b@.skip(i as int)),
        decreases la - i,
    {
        let ca = a.get_char(i);
        let cb = b.get_char(i);
        proof {
            assert(a@.skip(i as int)[0] == a@[i as int]);
            assert(b@.skip(i as int)[0] == b@[i as int]);
        }
        if ca != cb {
            return (ca as u32) < (cb as u32);
        }
        proof {
            assert(a@.skip(i as int).skip(1) =~= a@.skip(i + 1));
            assert(b@.skip(i as int).skip(1) =~= b@.skip(i + 1));
        }
        i += 1;
    }
    proof {
        if la <= lb {
            assert(a@.skip(i as int).len() == 0);
        } else {
            assert(b@.skip(i as int).len() == 0);
            assert(a@.skip(i as int).len() > 0);
        }
    }
    la <= lb
}

/// A name listing in presentation order.
pub open spec fn sorted_names(s: Seq<String>) -> bool {
    forall|i: int, j: int| 0 <= i < j < s.len() ==> lex_le(s[i]@, s[j]@)
}

/// Sort a name listing into presentation order. Nothing is added, dropped
/// or renamed: the result holds exactly the given names.
pub fn sort_names(names: Vec<String>) -> (r: Vec<String>)
    ensures
        sorted_names(r@),
        r@.to_multiset() == names@.to_multiset(),
{
    broadcast use vstd::seq_lib::group_seq_properties;

    let ghost orig = names@.to_multiset();
    let mut work = names;
    let mut out: Vec<String> = Vec::new();
    proof {
        work@.to_multiset_ensures();
        out@.to_multiset_ensures();
        assert(out@.to_multiset().add(work@.to_multiset()) =~= orig);
    }
    while work.len() > 0
        invariant
            sorted_names(out@),
            forall|a: int, b: int|
                0 <= a < out@.len() && 0 <= b < work@.len() ==> lex_le(out@[a]@, work@[b]@),
            out@.to_multiset().add(work@.to_multiset()) == orig,
        decreases work@.len(),
    {
        // Position of the least remaining name.
        let n = work.len();
        let mut m: usize = 0;
        let mut j: usize = 1;
        proof {
            lemma_lex_le_total(work@[0]@, work@[0]@);
        }
        while j < n
            invariant
                m < j <= n,
                n == work@.len(),
                forall|k: int| 0 <= k < j ==> lex_le(work@[m as int]@, work@[k]@),
            decreases n - j,
        {
            if str_le(work[j].as_str(), work[m].as_str()) {
                proof {
                    lemma_lex_le_total(work@[j as int]@, work@[j as int]@);
                    assert forall|k: int| 0 <= k < j + 1 implies lex_le(
                        work@[j as int]@,
                        work@[k]@,
                    ) by {
                        if k < j {
                            lemma_lex_le_trans(work@[j as int]@, work@[m as int]@, work@[k]@);
                        }
                    }
                }
                m = j;
            } else {
                proof {
                    lemma_lex_le_total(work@[j as int]@, work@[m as int]@);
                }
            }
            j += 1;
        }
        let ghost old_work = work@;
        let ghost old_out = out@;
        let x = work.remove(m);
        let ghost mid_work = work@;
        out.push(x);
        proof {
            old_work.to_multiset_ensures();
            old_out.to_multiset_ensures();
            assert(mid_work.to_multiset() =~= old_work.to_multiset().remove(old_work[m as int]));
            assert(out@.to_multiset() =~= old_out.to_multiset().insert(old_work[m as int]));
            assert(old_work.contains(old_work[m as int]));
            assert(old_work.to_multiset().count(old_work[m as int]) > 0);
            assert(out@.to_multiset().add(work@.to_multiset()) =~= orig);
            assert forall|a: int, b: int|
                0 <= a < out@.len() && 0 <= b < work@.len() implies lex_le(
                out@[a]@,
                work@[b]@,
            ) by {
                if b < m {
                    assert(work@[b] == old_work[b]);
                } else {
                    assert(work@[b] == old_work[b + 1]);
                }
                if a < out@.len() - 1 {
                    assert(out@[a] == old_out[a]);
                } else {
                    assert(out@[a] == old_work[m as int]);
                }
            }
            assert forall|i: int, j2: int| 0 <= i < j2 < out@.len() implies lex_le(
                out@[i]@,
                out@[j2]@,
            ) by {
                if j2 < out@.len() - 1 {
                    assert(out@[i] == old_out[i] && out@[j2] == old_out[j2]);
                } else {
                    assert(out@[j2] == old_work[m as int]);
                    assert(out@[i] == old_out[i]);
                }
            }
        }
    }
    proof {
        work@.to_multiset_ensures();
        assert(out@.to_multiset().add(work@.to_multiset()) =~= out@.to_multiset());
    }
    out
}

/// A bare subscription link: a text with the `http://` or `https://`
/// scheme.
pub open spec fn is_subscription_link(s: Seq<char>) -> bool {
    (s.len() >= 7 && s.take(7) == "http://"@) || (s.len() >= 8 && s.take(8) == "https://"@)
}

/// Whether a trimmed profile source is a subscription link.
pub fn is_subscription_url(s: &str) -> (r: bool)
    ensures
        r == is_subscription_link(s@),
{
    if str_starts_with(s, "http://") {
        proof {
            reveal_strlit("http://");
        }
        true
    } else if str_starts_with(s, "https://") {
        proof {
            reveal_strlit("http://");
            reveal_strlit("https://");
        }
        true
    } else {
        proof {
            reveal_strlit("http://");
            reveal_strlit("https://");
        }
        false
    }
}

/// What importing a profile under a name from a source does.
#[derive(Debug, PartialEq, Eq)]
pub enum ImportAction {
    /// The name or the source is empty: nothing is imported.
    EmptyInput,
    /// The source is a subscription link: it is stored, as text, in a new
    /// pointer profile at `path`.
    WritePointer { path: String },
    /// The source is an existing local file: it is copied verbatim to
    /// `path`, which carries the `yaml` extension.
    CopyFile { path: String },
    /// The source is neither a link nor an existing file.
    InvalidSource,
}

/// An operation on the agent's background service.
#[derive(Debug, PartialEq, Eq, Clone, Copy)]
pub enum ClashSrvOp {
    StartClashService,
    StopClashService,
    TestClashConfig,
    SetPermission,
    InstallSrv,
    UnInstallSrv,
    EnableLoopback,
}

/// An operation this build of the service controller does not support.
#[derive(Debug, PartialEq, Eq)]
pub struct UnsupportedOp;

/// Paths and commands of the local agent installation.
pub struct ClashTuiUtil {
    pub clashtui_dir: String,
    pub profile_dir: String,
    pub clash_core_path: String,
    pub clash_cfg_dir: String,
    pub clash_cfg_path: String,
    pub clash_srv_name: String,
    pub edit_cmd: String,
    pub open_dir_cmd: String,
}

impl ClashTuiUtil {
    /// The command line that asks the agent core to check a config file.
    pub open spec fn test_command(self, path: Seq<char>, geodata_mode: bool) -> Seq<char> {
        self.clash_core_path@ + " "@ + (if geodata_mode {
            "-m"@
        } else {
            ""@
        }) + " -d "@ + self.clash_cfg_dir@ + " -f "@ + path + " -t"@
    }

    /// The program and arguments that open `path` with a configured
    /// command: the command with `%s` replaced, run through a shell, or
    /// the system opener when no command is configured.
    pub open spec fn open_command(cmd: Seq<char>, path: Seq<char>) -> (Seq<char>, Seq<Seq<char>>) {
        if cmd.len() > 0 {
            ("sh"@, seq!["-c"@, subst_path(cmd, path)])
        } else {
            ("xdg-open"@, seq![path])
        }
    }

    /// Where a profile's concrete document lives: the stored file itself
    /// when it is already a document, else the cache location, with the
    /// name's extension replaced by `yaml`.
    pub fn get_profile_yaml_path(&self, profile_name: &String, profile_is_concrete: bool) -> (r:
        String)
        ensures
            r@ == if profile_is_concrete {
                join_path(self.profile_dir@, profile_name@)
            } else {
                join_path(
                    join_path(self.clashtui_dir@, "profile_cache"@),
                    with_yaml_ext(profile_name@),
                )
            },
    {
        if profile_is_concrete {
            join2(self.profile_dir.as_str(), profile_name.as_str())
        } else {
            let cache = join2(self.clashtui_dir.as_str(), "profile_cache");
            let name = with_yaml_ext_str(profile_name.as_str());
            join2(cache.as_str(), name.as_str())
        }
    }

    /// The profile names of the profile directory's listing, in
    /// presentation order: nothing added, dropped or renamed.
    pub fn get_profile_names(&self, entries: Vec<String>) -> (r: Vec<String>)
        ensures
            sorted_names(r@),
            r@.to_multiset() == entries@.to_multiset(),
    {
        sort_names(entries)
    }

    /// The template names of the template directory's listing, in
    /// presentation order: nothing added, dropped or renamed.
    pub fn get_template_names(&self, entries: Vec<String>) -> (r: Vec<String>)
        ensures
            sorted_names(r@),
            r@.to_multiset() == entries@.to_multiset(),
    {
        sort_names(entries)
    }

    /// Pointer-or-concrete detection for a stored profile, judged by its
    /// text: concrete exactly when the text is a structured document — a
    /// mapping at the root — and a pointer otherwise, a bare subscription
    /// link being the usual pointer content.
    pub fn is_profile_yaml(&self, profile_text: &str) -> (r: bool)
        ensures
            r == yaml_document(profile_text@),
    {
        is_structured_document(profile_text)
    }

    /// Where a declared resource is stored: its path under the agent's
    /// config directory.
    pub fn resource_destination(&self, path: &str) -> (r: String)
        ensures
            r@ == join_path(self.clash_cfg_dir@, path@),
    {
        join2(self.clash_cfg_dir.as_str(), path)
    }

    /// The command line that checks a profile's config file, with geodata
    /// mode switched on by `-m`.
    pub fn test_profile_config(&self, path: &str, geodata_mode: bool) -> (r: String)
        ensures
            r@ == self.test_command(path@, geodata_mode),
    {
        let mut s = self.clash_core_path.clone();
        s.append(" ");
        if geodata_mode {
            s.append("-m");
        }
        s.append(" -d ");
        s.append(self.clash_cfg_dir.as_str());
        s.append(" -f ");
        s.append(path);
        s.append(" -t");
        proof {
            reveal_strlit("");
            assert(s@ =~= self.test_command(path@, geodata_mode));
        }
        s
    }

    /// The program and arguments that open a file in the user's editor.
    pub fn edit_file(&self, path: &str) -> (r: (String, Vec<String>))
        ensures
            (r.0@, strs_view(r.1@)) == Self::open_command(self.edit_cmd@, path@),
    {
        Self::spawn_open(&self.edit_cmd, path)
    }

    /// The program and arguments that open a directory in the user's file
    /// manager.
    pub fn open_dir(&self, path: &str) -> (r: (String, Vec<String>))
        ensures
            (r.0@, strs_view(r.1@)) == Self::open_command(self.open_dir_cmd@, path@),
    {
        Self::spawn_open(&self.open_dir_cmd, path)
    }

    /// The program and arguments that open `path` with `cmd`.
    fn spawn_open(cmd: &String, path: &str) -> (r: (String, Vec<String>))
        ensures
            (r.0@, strs_view(r.1@)) == Self::open_command(cmd@, path@),
    {
        let mut args: Vec<String> = Vec::new();
        if cmd.as_str().unicode_len() > 0 {
            args.push("-c".to_owned());
            args.push(subst_path_str(cmd.as_str(), path));
            proof {
                assert(strs_view(args@) =~= seq!["-c"@, subst_path(cmd@, path@)]);
            }
            ("sh".to_owned(), args)
        } else {
            args.push(path.to_owned());
            proof {
                assert(strs_view(args@) =~= seq![path@]);
            }
            ("xdg-open".to_owned(), args)
        }
    }

    /// What importing a profile does: an empty name or source does
    /// nothing; a subscription link is stored as a pointer profile under
    /// the name; an existing local file is copied in, with the `yaml`
    /// extension applied to the name; anything else is refused.
    pub fn import_profile_action(
        &self,
        profile_name: &str,
        uri: &str,
        uri_is_existing_file: bool,
    ) -> (r: ImportAction)
        ensures
            profile_name@.len() == 0 || uri@.len() == 0 ==> r == ImportAction::EmptyInput,
            profile_name@.len() > 0 && uri@.len() > 0 && is_subscription_link(uri@) ==> (r matches
            ImportAction::WritePointer { path } && path@ == join_path(
                self.profile_dir@,
                profile_name@,
            )),
            profile_name@.len() > 0 && uri@.len() > 0 && !is_subscription_link(uri@)
                && uri_is_existing_file ==> (r matches ImportAction::CopyFile { path } && path@
                == join_path(self.profile_dir@, with_yaml_ext(profile_name@))),
            profile_name@.len() > 0 && uri@.len() > 0 && !is_subscription_link(uri@)
                && !uri_is_existing_file ==> r == ImportAction::InvalidSource,
    {
        if profile_name.unicode_len() == 0 || uri.unicode_len() == 0 {
            return ImportAction::EmptyInput;
        }
        if is_subscription_url(uri) {
            ImportAction::WritePointer { path: join2(self.profile_dir.as_str(), profile_name) }
        } else if uri_is_existing_file {
            let name = with_yaml_ext_str(profile_name);
            ImportAction::CopyFile { path: join2(self.profile_dir.as_str(), name.as_str()) }
        } else {
            ImportAction::InvalidSource
        }
    }

    /// The program and arguments of a service-control operation: restart
    /// or stop the background service, check the current config, or grant
    /// the core its network capabilities. Other operations belong to
    /// other platforms and are refused.
    pub fn clash_srv_ctl(&self, op: ClashSrvOp) -> (r: Result<(String, Vec<String>), UnsupportedOp>)
        ensures
            match op {
                ClashSrvOp::StartClashService => r matches Ok(a) && a.0@ == "systemctl"@
                    && strs_view(a.1@) == seq!["restart"@, self.clash_srv_name@],
                ClashSrvOp::StopClashService => r matches Ok(a) && a.0@ == "systemctl"@
                    && strs_view(a.1@) == seq!["stop"@, self.clash_srv_name@],
                ClashSrvOp::TestClashConfig => r matches Ok(a) && a.0@ == "sh"@ && strs_view(a.1@)
                    == seq!["-c"@, self.test_command(self.clash_cfg_path@, false)],
                ClashSrvOp::SetPermission => r matches Ok(a) && a.0@ == "setcap"@ && strs_view(a.1@)
                    == seq![
                    "'cap_net_admin,cap_net_bind_service=+ep'"@,
                    self.clash_core_path@,
                ],
                _ => r is Err,
            },
    {
        let mut args: Vec<String> = Vec::new();
        match op {
            ClashSrvOp::StartClashService => {
                args.push("restart".to_owned());
                args.push(self.clash_srv_name.clone());
                proof {
                    assert(strs_view(args@) =~= seq!["restart"@, self.clash_srv_name@]);
                }
                Ok(("systemctl".to_owned(), args))
            },
            ClashSrvOp::StopClashService => {
                args.push("stop".to_owned());
                args.push(self.clash_srv_name.clone());
                proof {
                    assert(strs_view(args@) =~= seq!["stop"@, self.clash_srv_name@]);
                }
                Ok(("systemctl".to_owned(), args))
            },
            ClashSrvOp::TestClashConfig => {
                args.push("-c".to_owned());
                args.push(self.test_profile_config(self.clash_cfg_path.clone().as_str(), false));
                proof {
                    assert(strs_view(args@) =~= seq![
                        "-c"@,
                        self.test_command(self.clash_cfg_path@, false),
                    ]);
                }
                Ok(("sh".to_owned(), args))
            },
            ClashSrvOp::SetPermission => {
                args.push("'cap_net_admin,cap_net_bind_service=+ep'".to_owned());
                args.push(self.clash_core_path.clone());
                proof {
                    assert(strs_view(args@) =~= seq![
                        "'cap_net_admin,cap_net_bind_service=+ep'"@,
                        self.clash_core_path@,
                    ]);
                }
                Ok(("setcap".to_owned(), args))
            },
            _ => Err(UnsupportedOp),
        }
    }
}

} // verus!
