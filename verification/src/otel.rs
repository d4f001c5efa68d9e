//! Configuration parsing for the OTLP push exporter: the header list given
//! through the environment (`key=value` pairs separated by commas) turned
//! into plain pairs.  Reading the environment and building the exporter
//! happen outside this crate.

use vstd::prelude::*;

verus! {

/// The whitespace stripped from around each pair.
pub open spec fn is_space(c: char) -> bool {
    c == ' ' || c == '\t' || c == '\n' || c == '\r'
}

/// The position of the first occurrence of `c`.
pub open spec fn find_char(s: Seq<char>, c: char) -> Option<int>
    decreases s.len(),
{
    if s.len() == 0 {
        None
    } else if s[0] == c {
        Some(0int)
    } else {
        match find_char(s.drop_first(), c) {
            Some(j) => Some(j + 1),
            None => None,
        }
    }
}

/// The string without its leading whitespace.
pub open spec fn trim_front(s: Seq<char>) -> Seq<char>
    decreases s.len(),
{
    if s.len() > 0 && is_space(s[0]) {
        trim_front(s.drop_first())
    } else {
        s
    }
}

/// The string without its trailing whitespace.
pub open spec fn trim_back(s: Seq<char>) -> Seq<char>
    decreases s.len(),
{
    if s.len() > 0 && is_space(s.last()) {
        trim_back(s.drop_last())
    } else {
        s
    }
}

/// The string without surrounding whitespace.
pub open spec fn trim_spec(s: Seq<char>) -> Seq<char> {
    trim_back(trim_front(s))
}

/// What one comma-separated piece contributes: after trimming, the text
/// before the first equals sign is the key and the text between the first
/// and second equals signs (or the end) is the value; a piece without an
/// equals sign contributes nothing.
pub open spec fn parse_piece(p: Seq<char>) -> Seq<(Seq<char>, Seq<char>)> {
    let t = trim_spec(p);
    match find_char(t, '=') {
        None => Seq::empty(),
        Some(i) => {
            let key = t.take(i);
            let rest = t.subrange(i + 1, t.len() as int);
            let val = match find_char(rest, '=') {
                Some(j) => rest.take(j),
                None => rest,
            };
            seq![(key, val)]
        },
    }
}

/// The pairs of a whole header list: each comma-separated piece parsed in
/// order.
pub open spec fn parse_headers_spec(s: Seq<char>) -> Seq<(Seq<char>, Seq<char>)>
    decreases s.len(),
{
    match find_char(s, ',') {
        Some(i) => if 0 <= i < s.len() {
            parse_piece(s.take(i)) + parse_headers_spec(s.subrange(i + 1, s.len() as int))
        } else {
            parse_piece(s)
        },
        None => parse_piece(s),
    }
}

/// The mathematical value of a pair list.
pub open spec fn headers_view(l: Seq<(String, String)>) -> Seq<(Seq<char>, Seq<char>)> {
    Seq::new(l.len(), |k: int| (l[k].0@, l[k].1@))
}

/// A first occurrence at `i` pins [`find_char`] down.
proof fn lemma_find_char_some(s: Seq<char>, c: char, i: int)
    requires
        0 <= i < s.len(),
        s[i] == c,
        forall|j: int| 0 <= j < i ==> s[j] != c,
    ensures
        find_char(s, c) == Some(i),
    decreases i,
{
    if i == 0 {
    } else {
        assert(s[0] != c);
        lemma_find_char_some(s.drop_first(), c, i - 1);
    }
}

/// No occurrence at all pins [`find_char`] down.
proof fn lemma_find_char_none(s: Seq<char>, c: char)
    requires
        forall|j: int| 0 <= j < s.len() ==> s[j] != c,
    ensures
        find_char(s, c) is None,
    decreases s.len(),
{
    if s.len() > 0 {
        lemma_find_char_none(s.drop_first(), c);
    }
}

/// Whether `c` is stripped by trimming.
fn is_space_char(c: char) -> (b: bool)
    ensures
        b == is_space(c),
{
    c == ' ' || c == '\t' || c == '\n' || c == '\r'
}

/// The first occurrence of `c` in `s` between `from` and `to`, if any.
fn find_in(s: &str, from: usize, to: usize, c: char) -> (r: Option<usize>)
    requires
        from <= to <= s@.len(),
    ensures
        match r {
            Some(i) => from <= i < to && s@[i as int] == c && (forall|j: int|
                from <= j < i ==> s@[j] != c),
            None => forall|j: int| from <= j < to ==> s@[j] != c,
        },
{
    let mut i: usize = from;
    while i < to
        invariant
            from <= i <= to <= s@.len(),
            forall|j: int| from <= j < i ==> s@[j] != c,
        decreases to - i,
    {
        if s.get_char(i) == c {
            return Some(i);
        }
        i += 1;
    }
    None
}

/// The piece without surrounding whitespace.
#[verifier::rlimit(30)]
fn trim_str<'a>(s: &'a str) -> (t: &'a str)
    ensures
        t@ == trim_spec(s@),
{
    let n = s.unicode_len();
    let mut lo: usize = 0;
    proof {
        assert(s@.subrange(0, n as int) =~= s@);
    }
    while lo < n && is_space_char(s.get_char(lo))
        invariant
            lo <= n,
            n == s@.len(),
            trim_front(s@) == trim_front(s@.subrange(lo as int, n as int)),
        decreases n - lo,
    {
        proof {
            assert(s@.subrange(lo as int, n as int).drop_first() =~= s@.subrange(
                lo as int + 1,
                n as int,
            ));
        }
        lo += 1;
    }
    proof {
        assert(trim_front(s@) == s@.subrange(lo as int, n as int));
    }
    let mut hi: usize = n;
    while hi > lo && is_space_char(s.get_char(hi - 1))
        invariant
            lo <= hi <= n,
            n == s@.len(),
            trim_front(s@) == s@.subrange(lo as int, n as int),
            trim_back(s@.subrange(lo as int, n as int)) == trim_back(
                s@.subrange(lo as int, hi as int),
            ),
        decreases hi,
    {
        proof {
            assert(s@.subrange(lo as int, hi as int).drop_last() =~= s@.subrange(
                lo as int,
                hi as int - 1,
            ));
        }
        hi -= 1;
    }
    proof {
        assert(trim_back(s@.subrange(lo as int, hi as int)) == s@.subrange(lo as int, hi as int));
    }
    s.substring_char(lo, hi)
}

/// Parse one piece and append what it contributes.
fn push_piece(out: &mut Vec<(String, String)>, piece: &str)
    ensures
        headers_view(final(out)@) == headers_view(old(out)@) + parse_piece(piece@),
{
    let t = trim_str(piece);
    let tn = t.unicode_len();
    match find_in(t, 0, tn, '=') {
        None => {
            proof {
                lemma_find_char_none(t@, '=');
                assert(headers_view(out@) =~= headers_view(out@) + parse_piece(piece@));
            }
        },
        Some(i) => {
            proof {
                lemma_find_char_some(t@, '=', i as int);
            }
            let key = t.substring_char(0, i).to_owned();
            let val = match find_in(t, i + 1, tn, '=') {
                Some(j) => {
                    proof {
                        let rest = t@.subrange(i as int + 1, tn as int);
                        assert forall|j2: int| 0 <= j2 < j - i - 1 implies rest[j2] != '=' by {
                            assert(rest[j2] == t@[i as int + 1 + j2]);
                        }
                        assert(rest[j - i - 1] == t@[j as int]);
                        lemma_find_char_some(rest, '=', j - i - 1);
                        assert(rest.take(j - i - 1) =~= t@.subrange(i as int + 1, j as int));
                    }
                    t.substring_char(i + 1, j).to_owned()
                },
                None => {
                    proof {
                        let rest = t@.subrange(i as int + 1, tn as int);
                        assert forall|j2: int| 0 <= j2 < rest.len() implies rest[j2] != '=' by {
                            assert(rest[j2] == t@[i as int + 1 + j2]);
                        }
                        lemma_find_char_none(rest, '=');
                    }
                    t.substring_char(i + 1, tn).to_owned()
                },
            };
            let ghost before = out@;
            proof {
                assert(t@.subrange(0, i as int) =~= t@.take(i as int));
            }
            out.push((key, val));
            proof {
                assert forall|k: int|
                    0 <= k < out@.len() implies headers_view(out@)[k] == (headers_view(before)
                    + parse_piece(piece@))[k] by {
                    if k < before.len() {
                        assert(out@[k] == before[k]);
                        assert(headers_view(before)[k] == (before[k].0@, before[k].1@));
                    } else {
                        assert(out@[k] == (key, val));
                    }
                }
                assert(headers_view(out@) =~= headers_view(before) + parse_piece(piece@));
            }
        },
    }
}

/// Parse a comma-separated `key=value` header list: each piece is trimmed
/// of surrounding whitespace; the text before its first equals sign is the
/// key and the text between the first and second equals signs (or the end)
/// is the value; a piece without an equals sign is skipped.  Pairs come
/// back in input order, repeated keys kept.
pub fn parse_headers(header_str: &str) -> (r: Vec<(String, String)>)
    ensures
        headers_view(r@) == parse_headers_spec(header_str@),
{
    let mut out: Vec<(String, String)> = Vec::new();
    let n = header_str.unicode_len();
    let mut pos: usize = 0;
    let mut more: usize = 1;
    proof {
        assert(header_str@.subrange(0, n as int) =~= header_str@);
        assert(headers_view(out@) =~= Seq::<(Seq<char>, Seq<char>)>::empty());
    }
    while more == 1
        invariant
            pos <= n,
            n == header_str@.len(),
            more <= 1,
            more == 1 ==> headers_view(out@) + parse_headers_spec(
                header_str@.subrange(pos as int, n as int),
            ) == parse_headers_spec(header_str@),
            more == 0 ==> headers_view(out@) == parse_headers_spec(header_str@),
        decreases more, n - pos,
    {
        let ghost rem = header_str@.subrange(pos as int, n as int);
        match find_in(header_str, pos, n, ',') {
            Some(i) => {
                proof {
                    assert forall|j2: int| 0 <= j2 < i - pos implies rem[j2] != ',' by {
                        assert(rem[j2] == header_str@[pos + j2]);
                    }
                    assert(rem[i - pos] == header_str@[i as int]);
                    lemma_find_char_some(rem, ',', i - pos);
                    assert(rem.take(i - pos) =~= header_str@.subrange(pos as int, i as int));
                    assert(rem.subrange(i - pos + 1, rem.len() as int) =~= header_str@.subrange(
                        i as int + 1,
                        n as int,
                    ));
                }
                let piece = header_str.substring_char(pos, i);
                push_piece(&mut out, piece);
                pos = i + 1;
            },
            None => {
                proof {
                    assert forall|j2: int| 0 <= j2 < rem.len() implies rem[j2] != ',' by {
                        assert(rem[j2] == header_str@[pos + j2]);
                    }
                    lemma_find_char_none(rem, ',');
                }
                let piece = header_str.substring_char(pos, n);
                push_piece(&mut out, piece);
                more = 0;
            },
        }
    }
    out
}

} // verus!
