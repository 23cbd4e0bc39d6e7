//! The provider source list: a text with one source URL per line. Lines
//! that are empty after trimming, or whose first character after trimming
//! is `#`, are ignored; every other line contributes its trimmed content,
//! in order.

use vstd::prelude::*;

use crate::yaml::strs_view;

verus! {

/// The whitespace characters the list format trims: ASCII blanks and line
/// ends.
pub open spec fn is_space(c: char) -> bool {
    c == ' ' || c == '\t' || c == '\r' || c == '\n' || c == '\u{b}' || c == '\u{c}'
}

/// A text without its leading whitespace.
pub open spec fn trim_front(s: Seq<char>) -> Seq<char>
    decreases s.len(),
{
    if s.len() > 0 && is_space(s[0]) {
        trim_front(s.skip(1))
    } else {
        s
    }
}

/// A text without its trailing whitespace.
pub open spec fn trim_back(s: Seq<char>) -> Seq<char>
    decreases s.len(),
{
    if s.len() > 0 && is_space(s.last()) {
        trim_back(s.drop_last())
    } else {
        s
    }
}

/// A text without leading and trailing whitespace.
pub open spec fn trim_spec(s: Seq<char>) -> Seq<char> {
    trim_back(trim_front(s))
}

/// `trim_front` keeps exactly the part after the leading whitespace.
pub proof fn lemma_trim_front(s: Seq<char>, k: int)
    requires
        0 <= k <= s.len(),
        forall|j: int| 0 <= j < k ==> is_space(s[j]),
        k == s.len() || !is_space(s[k]),
    ensures
        trim_front(s) == s.skip(k),
    decreases k,
{
    if k == 0 {
        assert(s.skip(0) =~= s);
    } else {
        lemma_trim_front(s.skip(1), k - 1);
        assert(s.skip(1).skip(k - 1) =~= s.skip(k));
    }
}

/// `trim_back` keeps exactly the part before the trailing whitespace.
pub proof fn lemma_trim_back(s: Seq<char>, k: int)
    requires
        0 <= k <= s.len(),
        forall|j: int| k <= j < s.len() ==> is_space(s[j]),
        k == 0 || !is_space(s[k - 1]),
    ensures
        trim_back(s) == s.take(k),
    decreases s.len() - k,
{
    if k == s.len() {
        assert(s.take(k) =~= s);
    } else {
        lemma_trim_back(s.drop_last(), k);
        assert(s.drop_last().take(k) =~= s.take(k));
    }
}

/// Whether `c` is whitespace to the list format.
pub fn is_space_char(c: char) -> (r: bool)
    ensures
        r == is_space(c),
{
    c == ' ' || c == '\t' || c == '\r' || c == '\n' || c == '\u{b}' || c == '\u{c}'
}

/// The trimmed content of a text.
pub fn trim_str(s: &str) -> (r: String)
    ensures
        r@ == trim_spec(s@),
{
    let n = s.unicode_len();
    let mut a: usize = 0;
    while a < n && is_space_char(s.get_char(a))
        invariant
            a <= n,
            n == s@.len(),
            forall|j: int| 0 <= j < a ==> is_space(s@[j]),
        decreases n - a,
    {
        a += 1;
    }
    proof {
        lemma_trim_front(s@, a as int);
    }
    let ghost f = s@.skip(a as int);
    let mut b: usize = n;
    while b > a && is_space_char(s.get_char(b - 1))
        invariant
            a <= b <= n,
            n == s@.len(),
            forall|j: int| b <= j < n ==> is_space(s@[j]),
        decreases b,
    {
        b -= 1;
    }
    proof {
        assert forall|j: int| b - a <= j < f.len() implies is_space(f[j]) by {
            assert(f[j] == s@[a + j]);
        }
        if b > a {
            assert(f[b - a - 1] == s@[b - 1]);
        }
        lemma_trim_back(f, b - a);
        assert(f.take(b - a) =~= s@.subrange(a as int, b as int));
    }
    let t = s.substring_char(a, b);
    t.to_owned()
}

/// Index of the first line break, or the text's length.
pub open spec fn line_end(s: Seq<char>) -> int
    decreases s.len(),
{
    if s.len() == 0 {
        0
    } else if s[0] == '\n' {
        0
    } else {
        1 + line_end(s.skip(1))
    }
}

/// `line_end` finds exactly the first line break.
pub proof fn lemma_line_end(s: Seq<char>)
    ensures
        0 <= line_end(s) <= s.len(),
        line_end(s) < s.len() ==> s[line_end(s)] == '\n',
        forall|j: int| 0 <= j < line_end(s) ==> s[j] != '\n',
    decreases s.len(),
{
    if s.len() > 0 && s[0] != '\n' {
        lemma_line_end(s.skip(1));
        assert forall|j: int| 0 <= j < line_end(s) implies s[j] != '\n' by {
            if j > 0 {
                assert(s.skip(1)[j - 1] == s[j]);
            }
        }
    }
}

/// Whether a line contributes a URL: non-empty after trimming and not a
/// comment.
pub open spec fn keep_line(l: Seq<char>) -> bool {
    trim_spec(l).len() > 0 && trim_spec(l)[0] != '#'
}

/// The source URLs of a list text, in line order.
pub open spec fn source_list(s: Seq<char>) -> Seq<Seq<char>>
    decreases s.len(),
    via source_list_dec
{
    if s.len() == 0 {
        Seq::empty()
    } else {
        let e = line_end(s);
        let line = s.take(e);
        let rest = if e < s.len() {
            source_list(s.skip(e + 1))
        } else {
            Seq::empty()
        };
        if keep_line(line) {
            seq![trim_spec(line)] + rest
        } else {
            rest
        }
    }
}

#[via_fn]
proof fn source_list_dec(s: Seq<char>) {
    lemma_line_end(s);
}

/// Parse a provider source list text into its URLs, in order.
pub fn parse_provider_sources(text: &str) -> (r: Vec<String>)
    ensures
        strs_view(r@) == source_list(text@),
{
    let ghost s0 = text@;
    let mut out: Vec<String> = Vec::new();
    let n = text.unicode_len();
    proof {
        assert(s0.skip(0) =~= s0);
        assert(strs_view(out@) =~= Seq::<Seq<char>>::empty());
    }
    let mut pos: usize = 0;
    while pos < n
        invariant
            pos <= n,
            n == s0.len(),
            s0 == text@,
            source_list(s0) == strs_view(out@) + source_list(s0.skip(pos as int)),
        decreases n - pos,
    {
        let ghost rem = s0.skip(pos as int);
        // Find the end of the current line.
        let mut e: usize = pos;
        while e < n && text.get_char(e) != '\n'
            invariant
                pos <= e <= n,
                n == s0.len(),
                s0 == text@,
                forall|j: int| pos <= j < e ==> s0[j] != '\n',
            decreases n - e,
        {
            e += 1;
        }
        proof {
            lemma_line_end(rem);
            let le = line_end(rem);
            assert forall|j: int| 0 <= j < e - pos implies rem[j] != '\n' by {
                assert(rem[j] == s0[pos + j]);
            }
            if e < n {
                assert(rem[e - pos] == s0[e as int]);
            }
            assert(le == e - pos) by {
                if le < e - pos {
                    assert(rem[le] == '\n');
                }
                if le > e - pos {
                    assert(rem[e - pos] != '\n');
                }
            }
            assert(rem.take(e - pos) =~= s0.subrange(pos as int, e as int));
        }
        let line = text.substring_char(pos, e);
        let tr = trim_str(line);
        let keep = if tr.as_str().unicode_len() == 0 {
            false
        } else {
            tr.as_str().get_char(0) != '#'
        };
        if keep {
            let ghost ob = out@;
            out.push(tr);
            proof {
                assert(strs_view(out@) =~= strs_view(ob).push(trim_spec(rem.take(e - pos))));
            }
        }
        let ghost new_pos: int = if e < n {
            e + 1
        } else {
            n as int
        };
        proof {
            assert(keep == keep_line(rem.take(e - pos)));
            let le = line_end(rem);
            if e < n {
                assert(rem.skip(le + 1) =~= s0.skip(new_pos));
            } else {
                assert(s0.skip(new_pos) =~= Seq::<char>::empty());
            }
            assert(source_list(s0) =~= strs_view(out@) + source_list(s0.skip(new_pos)));
        }
        if e < n {
            pos = e + 1;
        } else {
            pos = n;
        }
    }
    proof {
        assert(s0.skip(n as int) =~= Seq::<char>::empty());
        assert(strs_view(out@) =~= source_list(s0));
    }
    out
}

} // verus!
