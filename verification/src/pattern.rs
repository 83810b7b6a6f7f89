//! The textual grammar of event-channel identifiers, and the extractor that
//! returns, in left-to-right order, every quoted identifier of a text.

use vstd::prelude::*;

verus! {

/// A byte that may appear in an event identifier: ASCII letters, digits,
/// colon, hyphen and underscore.
pub open spec fn is_ident_byte(b: u8) -> bool {
    (97 <= b && b <= 122)  // 'a'..='z'
    || (65 <= b && b <= 90)  // 'A'..='Z'
    || (48 <= b && b <= 57)  // '0'..='9'
    || b == 58  // ':'
    || b == 45  // '-'
    || b == 95  // '_'
}

/// The bytes of `client:`.
pub open spec fn client_prefix() -> Seq<u8> {
    seq![99u8, 108u8, 105u8, 101u8, 110u8, 116u8, 58u8]
}

/// The bytes of `server:`.
pub open spec fn server_prefix() -> Seq<u8> {
    seq![115u8, 101u8, 114u8, 118u8, 101u8, 114u8, 58u8]
}

/// An event-channel identifier: `client:` or `server:` followed by
/// identifier bytes only.
pub open spec fn is_identifier(s: Seq<u8>) -> bool {
    &&& s.len() >= 7
    &&& (s.take(7) == client_prefix() || s.take(7) == server_prefix())
    &&& forall|i: int| 0 <= i < s.len() ==> is_ident_byte(#[trigger] s[i])
}

/// The end of the maximal run of identifier bytes that starts at `j`.
pub open spec fn run_end(s: Seq<u8>, j: int) -> int
    decreases s.len() - j when 0 <= j <= s.len()
{
    if j < s.len() && is_ident_byte(s[j]) {
        run_end(s, j + 1)
    } else {
        j
    }
}

pub proof fn lemma_run_end(s: Seq<u8>, j: int)
    requires
        0 <= j <= s.len(),
    ensures
        j <= run_end(s, j) <= s.len(),
        forall|k: int| j <= k < run_end(s, j) ==> is_ident_byte(#[trigger] s[k]),
        run_end(s, j) == s.len() || !is_ident_byte(s[run_end(s, j)]),
    decreases s.len() - j,
{
    if j < s.len() && is_ident_byte(s[j]) {
        lemma_run_end(s, j + 1);
    }
}

/// A quoted identifier starts at position `i`: a double quote, one of the two
/// prefixes, then the maximal run of identifier bytes, closed by a quote.
pub open spec fn match_at(s: Seq<u8>, i: int) -> bool {
    &&& 0 <= i
    &&& i + 8 <= s.len()
    &&& s[i] == 34  // '"'
    &&& (s.subrange(i + 1, i + 8) == client_prefix() || s.subrange(i + 1, i + 8)
        == server_prefix())
    &&& run_end(s, i + 8) < s.len()
    &&& s[run_end(s, i + 8)] == 34
}

/// The identifier matched at `i`, quotes stripped.
pub open spec fn ident_at(s: Seq<u8>, i: int) -> Seq<u8>
    recommends
        match_at(s, i),
{
    s.subrange(i + 1, run_end(s, i + 8))
}

/// The first position after the match at `i` (past the closing quote).
pub open spec fn match_end(s: Seq<u8>, i: int) -> int
    recommends
        match_at(s, i),
{
    run_end(s, i + 8) + 1
}

/// The identifiers extracted from `s` starting at position `i`: leftmost,
/// non-overlapping matches of the quoted-identifier pattern, in order,
/// quotes stripped.
pub open spec fn extract_from(s: Seq<u8>, i: int) -> Seq<Seq<u8>>
    decreases s.len() - i when 0 <= i <= s.len()
    via extract_from_decreases
{
    if i >= s.len() {
        Seq::empty()
    } else if match_at(s, i) {
        seq![ident_at(s, i)] + extract_from(s, match_end(s, i))
    } else {
        extract_from(s, i + 1)
    }
}

#[via_fn]
proof fn extract_from_decreases(s: Seq<u8>, i: int) {
    if 0 <= i <= s.len() && i < s.len() && match_at(s, i) {
        lemma_run_end(s, i + 8);
    }
}

/// What the extractor hands out always satisfies the identifier grammar.
pub proof fn lemma_match_ident_is_identifier(s: Seq<u8>, i: int)
    requires
        match_at(s, i),
    ensures
        is_identifier(ident_at(s, i)),
        ident_at(s, i).len() >= 7,
{
    lemma_run_end(s, i + 8);
    let id = ident_at(s, i);
    let e = run_end(s, i + 8);
    assert(id.len() == e - (i + 1) >= 7);
    assert(id.take(7) =~= s.subrange(i + 1, i + 8));
    assert forall|k: int| 0 <= k < id.len() implies is_ident_byte(#[trigger] id[k]) by {
        assert(id[k] == s[i + 1 + k]);
        if k < 7 {
            if s.subrange(i + 1, i + 8) == client_prefix() {
                assert(s[i + 1 + k] == client_prefix()[k]);
            } else {
                assert(s[i + 1 + k] == server_prefix()[k]);
            }
        } else {
            assert(i + 8 <= i + 1 + k < e);
        }
    }
}

/// Every identifier in an extraction satisfies the grammar.
pub proof fn lemma_extracted_are_identifiers(s: Seq<u8>, i: int)
    requires
        0 <= i <= s.len(),
    ensures
        forall|k: int|
            0 <= k < extract_from(s, i).len() ==> is_identifier(
                #[trigger] extract_from(s, i)[k],
            ),
    decreases s.len() - i,
{
    if i >= s.len() {
    } else if match_at(s, i) {
        lemma_run_end(s, i + 8);
        lemma_match_ident_is_identifier(s, i);
        lemma_extracted_are_identifiers(s, match_end(s, i));
        let rest = extract_from(s, match_end(s, i));
        assert(extract_from(s, i) == seq![ident_at(s, i)] + rest);
        assert forall|k: int| 0 <= k < extract_from(s, i).len() implies is_identifier(
            #[trigger] extract_from(s, i)[k],
        ) by {
            if k == 0 {
                assert(extract_from(s, i)[0] == ident_at(s, i));
            } else {
                assert(extract_from(s, i)[k] == rest[k - 1]);
            }
        }
    } else {
        lemma_extracted_are_identifiers(s, i + 1);
        assert(extract_from(s, i) == extract_from(s, i + 1));
    }
}

/// The views of a sequence of byte vectors.
pub open spec fn views_of(vs: Seq<Vec<u8>>) -> Seq<Seq<u8>> {
    vs.map_values(|v: Vec<u8>| v@)
}

pub proof fn lemma_views_of_push(vs: Seq<Vec<u8>>, v: Vec<u8>)
    ensures
        views_of(vs.push(v)) == views_of(vs).push(v@),
{
    let a = views_of(vs.push(v));
    let b = views_of(vs).push(v@);
    assert(a.len() == b.len());
    assert forall|i: int| 0 <= i < a.len() implies a[i] == b[i] by {
        if i < vs.len() {
            assert(vs.push(v)[i] == vs[i]);
        } else {
            assert(vs.push(v)[i] == v);
        }
    }
    assert(a =~= b);
}

/// A byte of the identifier character class.
pub fn ident_byte(b: u8) -> (r: bool)
    ensures
        r == is_ident_byte(b),
{
    (97 <= b && b <= 122) || (65 <= b && b <= 90) || (48 <= b && b <= 57) || b == 58 || b == 45
        || b == 95
}

/// Tries to match a quoted identifier at position `i`; on success returns the
/// identifier (quotes stripped) and the position just past the match.
fn try_match(text: &Vec<u8>, i: usize) -> (m: Option<(Vec<u8>, usize)>)
    requires
        i < text@.len(),
    ensures
        m.is_some() == match_at(text@, i as int),
        m.is_some() ==> {
            &&& m.unwrap().0@ == ident_at(text@, i as int)
            &&& m.unwrap().1 == match_end(text@, i as int)
            &&& i < m.unwrap().1 <= text@.len()
        },
{
    let ghost s = text@;
    let n = text.len();
    if text[i] != 34 {
        return None;
    }
    if n - i < 8 {
        return None;
    }
    let is_client = text[i + 1] == 99 && text[i + 2] == 108 && text[i + 3] == 105 && text[i + 4]
        == 101 && text[i + 5] == 110 && text[i + 6] == 116 && text[i + 7] == 58;
    let is_server = text[i + 1] == 115 && text[i + 2] == 101 && text[i + 3] == 114 && text[i + 4]
        == 118 && text[i + 5] == 101 && text[i + 6] == 114 && text[i + 7] == 58;
    proof {
        if is_client {
            assert(s.subrange(i + 1, i + 8) =~= client_prefix());
        }
        if is_server {
            assert(s.subrange(i + 1, i + 8) =~= server_prefix());
        }
        if !is_client && s.subrange(i + 1, i + 8) == client_prefix() {
            assert(s[i + 1] == client_prefix()[0]);
            assert(s[i + 2] == client_prefix()[1]);
            assert(s[i + 3] == client_prefix()[2]);
            assert(s[i + 4] == client_prefix()[3]);
            assert(s[i + 5] == client_prefix()[4]);
            assert(s[i + 6] == client_prefix()[5]);
            assert(s[i + 7] == client_prefix()[6]);
        }
        if !is_server && s.subrange(i + 1, i + 8) == server_prefix() {
            assert(s[i + 1] == server_prefix()[0]);
            assert(s[i + 2] == server_prefix()[1]);
            assert(s[i + 3] == server_prefix()[2]);
            assert(s[i + 4] == server_prefix()[3]);
            assert(s[i + 5] == server_prefix()[4]);
            assert(s[i + 6] == server_prefix()[5]);
            assert(s[i + 7] == server_prefix()[6]);
        }
    }
    if !is_client && !is_server {
        return None;
    }
    let mut j: usize = i + 8;
    while j < n && ident_byte(text[j])
        invariant
            i + 8 <= j <= n,
            n == s.len(),
            s == text@,
            run_end(s, i + 8) == run_end(s, j as int),
        decreases n - j,
    {
        j = j + 1;
    }
    proof {
        assert(run_end(s, j as int) == j);
        assert(run_end(s, i + 8) == j);
    }
    if j < n && text[j] == 34 {
        let mut v: Vec<u8> = Vec::new();
        let mut k: usize = i + 1;
        while k < j
            invariant
                i + 1 <= k <= j <= n,
                n == s.len(),
                s == text@,
                v@ =~= s.subrange(i + 1, k as int),
            decreases j - k,
        {
            v.push(text[k]);
            k = k + 1;
        }
        assert(v@ =~= ident_at(s, i as int));
        Some((v, j + 1))
    } else {
        None
    }
}

/// Extracts, in left-to-right order and with quotes stripped, every substring
/// of `text` that matches the quoted event-identifier pattern; matches do not
/// overlap, and duplicates are preserved.
pub fn extract(text: &Vec<u8>) -> (r: Vec<Vec<u8>>)
    ensures
        views_of(r@) == extract_from(text@, 0),
{
    let ghost s = text@;
    let n = text.len();
    let mut r: Vec<Vec<u8>> = Vec::new();
    let mut i: usize = 0;
    while i < n
        invariant
            0 <= i <= n,
            n == s.len(),
            s == text@,
            extract_from(s, 0) == views_of(r@) + extract_from(s, i as int),
        decreases n - i,
    {
        let m = try_match(text, i);
        match m {
            Some((v, next)) => {
                proof {
                    assert(extract_from(s, i as int) == seq![ident_at(s, i as int)]
                        + extract_from(s, match_end(s, i as int)));
                    lemma_views_of_push(r@, v);
                    assert(views_of(r@) + extract_from(s, i as int) =~= views_of(r@).push(v@)
                        + extract_from(s, next as int));
                }
                r.push(v);
                i = next;
            },
            None => {
                proof {
                    assert(extract_from(s, i as int) == extract_from(s, i + 1));
                }
                i = i + 1;
            },
        }
    }
    proof {
        assert(extract_from(s, n as int) =~= Seq::<Seq<u8>>::empty());
        assert(views_of(r@) + Seq::<Seq<u8>>::empty() =~= views_of(r@));
    }
    r
}

/// The naming convention of the embedded-browser source file: a name that
/// starts with `index-` and ends with `.js`.
pub fn is_cef_index_file_name(name: &Vec<u8>) -> (r: bool)
    ensures
        r == (name@.len() >= 9 && name@.take(6) == seq![
            105u8,
            110u8,
            100u8,
            101u8,
            120u8,
            45u8,
        ] && name@.skip(name@.len() - 3) == seq![46u8, 106u8, 115u8]),
{
    let n = name.len();
    if n < 9 {
        return false;
    }
    let starts = name[0] == 105 && name[1] == 110 && name[2] == 100 && name[3] == 101 && name[4]
        == 120 && name[5] == 45;
    let ends = name[n - 3] == 46 && name[n - 2] == 106 && name[n - 1] == 115;
    proof {
        let pre = seq![105u8, 110u8, 100u8, 101u8, 120u8, 45u8];
        let suf = seq![46u8, 106u8, 115u8];
        if starts {
            assert(name@.take(6) =~= pre);
        } else if name@.take(6) == pre {
            assert(name@[0] == pre[0]);
            assert(name@[1] == pre[1]);
            assert(name@[2] == pre[2]);
            assert(name@[3] == pre[3]);
            assert(name@[4] == pre[4]);
            assert(name@[5] == pre[5]);
        }
        if ends {
            assert(name@.skip(name@.len() - 3) =~= suf);
        } else if name@.skip(name@.len() - 3) == suf {
            assert(name@[name@.len() - 3] == suf[0]);
            assert(name@[name@.len() - 2] == suf[1]);
            assert(name@[name@.len() - 1] == suf[2]);
        }
    }
    starts && ends
}

} // verus!
