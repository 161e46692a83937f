//! The storage text format: a JSON document `{"tags":{<tag>:[<file>,...]}}`.
//!
//! `json_of` is the canonical text of database contents; the `sp_` functions
//! are the grammar, a deterministic parse of one character run. The
//! round-trip law `lemma_round_trip` proves that the canonical text of any
//! contents parses back to exactly those contents.

use vstd::prelude::*;

use crate::store::Entries;
use crate::store::TagDatabase;
use crate::store::TagEntry;
use crate::store::wf_entries;
use crate::text::chars_to_string;
use crate::text::str_chars;

verus! {

/// How one character stands inside a quoted string: quotes and backslashes
/// carry a backslash escape, every other character stands as itself.
pub open spec fn esc_char(c: char) -> Seq<char> {
    if c == '"' || c == '\\' {
        seq!['\\', c]
    } else {
        seq![c]
    }
}

/// The escaped body of a quoted string.
pub open spec fn esc_str(t: Seq<char>) -> Seq<char>
    decreases t.len(),
{
    if t.len() == 0 {
        Seq::empty()
    } else {
        esc_char(t[0]) + esc_str(t.drop_first())
    }
}

/// A quoted string: `"` body `"`.
pub open spec fn json_string(t: Seq<char>) -> Seq<char> {
    seq!['"'] + esc_str(t) + seq!['"']
}

/// The tail of a file array after its first element: `,"f"...]` or `]`.
pub open spec fn json_files_rest(fs: Seq<Seq<char>>) -> Seq<char>
    decreases fs.len(),
{
    if fs.len() == 0 {
        seq![']']
    } else {
        seq![','] + json_string(fs[0]) + json_files_rest(fs.drop_first())
    }
}

/// A file array: `["f1","f2"]` or `[]`.
pub open spec fn json_files(fs: Seq<Seq<char>>) -> Seq<char> {
    if fs.len() == 0 {
        seq!['[', ']']
    } else {
        seq!['['] + json_string(fs[0]) + json_files_rest(fs.drop_first())
    }
}

/// The tail of the tag object after its first entry: `,"t":[...]...}` or `}`.
pub open spec fn json_entries_rest(es: Entries) -> Seq<char>
    decreases es.len(),
{
    if es.len() == 0 {
        seq!['}']
    } else {
        seq![','] + json_string(es[0].0) + seq![':'] + json_files(es[0].1) + json_entries_rest(
            es.drop_first(),
        )
    }
}

/// The opening of the document: `{"tags":{`.
pub open spec fn json_header() -> Seq<char> {
    seq!['{', '"', 't', 'a', 'g', 's', '"', ':', '{']
}

/// The canonical text of database contents.
pub open spec fn json_of(es: Entries) -> Seq<char> {
    if es.len() == 0 {
        json_header() + seq!['}', '}']
    } else {
        json_header() + json_string(es[0].0) + seq![':'] + json_files(es[0].1) + json_entries_rest(
            es.drop_first(),
        ) + seq!['}']
    }
}

/// Parses a quoted string's body from position `i` up to and past its closing
/// quote; yields the unescaped content and the position after the quote.
pub open spec fn sp_chars(s: Seq<char>, i: int) -> Option<(Seq<char>, int)>
    decreases s.len() - i
    when 0 <= i <= s.len()
{
    if i >= s.len() {
        None
    } else if s[i] == '"' {
        Some((Seq::empty(), i + 1))
    } else if s[i] == '\\' {
        if i + 1 < s.len() && (s[i + 1] == '"' || s[i + 1] == '\\') {
            match sp_chars(s, i + 2) {
                Some(r) => Some((seq![s[i + 1]] + r.0, r.1)),
                None => None,
            }
        } else {
            None
        }
    } else {
        match sp_chars(s, i + 1) {
            Some(r) => Some((seq![s[i]] + r.0, r.1)),
            None => None,
        }
    }
}

/// On success the parse of a string body moves forward and stays in bounds.
pub proof fn lemma_sp_chars_bounds(s: Seq<char>, i: int)
    requires
        0 <= i <= s.len(),
    ensures
        sp_chars(s, i) matches Some(r) ==> i < r.1 <= s.len(),
    decreases s.len() - i,
{
    if i >= s.len() {
    } else if s[i] == '"' {
    } else if s[i] == '\\' {
        if i + 1 < s.len() && (s[i + 1] == '"' || s[i + 1] == '\\') {
            lemma_sp_chars_bounds(s, i + 2);
        }
    } else {
        lemma_sp_chars_bounds(s, i + 1);
    }
}

/// Parses a quoted string starting at its opening quote.
pub open spec fn sp_string(s: Seq<char>, i: int) -> Option<(Seq<char>, int)> {
    if 0 <= i < s.len() && s[i] == '"' {
        sp_chars(s, i + 1)
    } else {
        None
    }
}

/// On success the parse of a quoted string moves at least two characters.
pub proof fn lemma_sp_string_bounds(s: Seq<char>, i: int)
    ensures
        sp_string(s, i) matches Some(r) ==> i + 2 <= r.1 <= s.len(),
{
    if 0 <= i < s.len() && s[i] == '"' {
        lemma_sp_chars_bounds(s, i + 1);
    }
}

/// Parses the tail of a file array: a `]`, or `,` and a string and the rest.
pub open spec fn sp_files_rest(s: Seq<char>, j: int) -> Option<(Seq<Seq<char>>, int)>
    decreases s.len() - j
    when 0 <= j <= s.len()
{
    if j >= s.len() {
        None
    } else if s[j] == ']' {
        Some((Seq::empty(), j + 1))
    } else if s[j] == ',' {
        match sp_string(s, j + 1) {
            Some(f) => {
                proof {
                    lemma_sp_string_bounds(s, j + 1);
                }
                match sp_files_rest(s, f.1) {
                    Some(r) => Some((seq![f.0] + r.0, r.1)),
                    None => None,
                }
            },
            None => None,
        }
    } else {
        None
    }
}

/// On success the parse of a file-array tail moves forward and stays in
/// bounds.
pub proof fn lemma_sp_files_rest_bounds(s: Seq<char>, j: int)
    requires
        0 <= j <= s.len(),
    ensures
        sp_files_rest(s, j) matches Some(r) ==> j < r.1 <= s.len(),
    decreases s.len() - j,
{
    if j < s.len() && s[j] == ',' {
        lemma_sp_string_bounds(s, j + 1);
        if let Some(f) = sp_string(s, j + 1) {
            lemma_sp_files_rest_bounds(s, f.1);
        }
    }
}

/// Parses a file array starting at its `[`.
pub open spec fn sp_files(s: Seq<char>, i: int) -> Option<(Seq<Seq<char>>, int)> {
    if 0 <= i < s.len() && s[i] == '[' {
        if i + 1 < s.len() && s[i + 1] == ']' {
            Some((Seq::empty(), i + 2))
        } else {
            match sp_string(s, i + 1) {
                Some(f) => match sp_files_rest(s, f.1) {
                    Some(r) => Some((seq![f.0] + r.0, r.1)),
                    None => None,
                },
                None => None,
            }
        }
    } else {
        None
    }
}

/// On success the parse of a file array moves forward and stays in bounds.
pub proof fn lemma_sp_files_bounds(s: Seq<char>, i: int)
    ensures
        sp_files(s, i) matches Some(r) ==> i < r.1 <= s.len(),
{
    if 0 <= i < s.len() && s[i] == '[' {
        lemma_sp_string_bounds(s, i + 1);
        if !(i + 1 < s.len() && s[i + 1] == ']') {
            if let Some(f) = sp_string(s, i + 1) {
                lemma_sp_files_rest_bounds(s, f.1);
            }
        }
    }
}

/// Parses the tail of the tag object: a `}`, or `,` and one entry and the
/// rest. Yields the position after the inner `}`.
pub open spec fn sp_entries_rest(s: Seq<char>, k: int) -> Option<(Entries, int)>
    decreases s.len() - k
    when 0 <= k <= s.len()
{
    if k >= s.len() {
        None
    } else if s[k] == '}' {
        Some((Seq::empty(), k + 1))
    } else if s[k] == ',' {
        match sp_string(s, k + 1) {
            Some(t) => {
                if t.1 < s.len() && s[t.1] == ':' {
                    match sp_files(s, t.1 + 1) {
                        Some(fs) => {
                            proof {
                                lemma_sp_string_bounds(s, k + 1);
                                lemma_sp_files_bounds(s, t.1 + 1);
                            }
                            match sp_entries_rest(s, fs.1) {
                                Some(r) => Some((seq![(t.0, fs.0)] + r.0, r.1)),
                                None => None,
                            }
                        },
                        None => None,
                    }
                } else {
                    None
                }
            },
            None => None,
        }
    } else {
        None
    }
}

/// On success the parse of a tag-object tail moves forward and stays in
/// bounds.
pub proof fn lemma_sp_entries_rest_bounds(s: Seq<char>, k: int)
    requires
        0 <= k <= s.len(),
    ensures
        sp_entries_rest(s, k) matches Some(r) ==> k < r.1 <= s.len(),
    decreases s.len() - k,
{
    if k < s.len() && s[k] == ',' {
        lemma_sp_string_bounds(s, k + 1);
        if let Some(t) = sp_string(s, k + 1) {
            if t.1 < s.len() && s[t.1] == ':' {
                lemma_sp_files_bounds(s, t.1 + 1);
                if let Some(fs) = sp_files(s, t.1 + 1) {
                    lemma_sp_entries_rest_bounds(s, fs.1);
                }
            }
        }
    }
}

/// Parses a whole document. `None` is a malformed document; trailing text is
/// malformed too.
pub open spec fn sp_db(s: Seq<char>) -> Option<Entries> {
    if s.len() >= 11 && s.subrange(0, 9) == json_header() {
        if s[9] == '}' {
            if s.len() == 11 && s[10] == '}' {
                Some(Seq::empty())
            } else {
                None
            }
        } else {
            match sp_string(s, 9) {
                Some(t) => {
                    if t.1 < s.len() && s[t.1] == ':' {
                        match sp_files(s, t.1 + 1) {
                            Some(fs) => {
                                match sp_entries_rest(s, fs.1) {
                                    Some(r) => {
                                        if r.1 == s.len() - 1 && s[r.1] == '}' {
                                            Some(seq![(t.0, fs.0)] + r.0)
                                        } else {
                                            None
                                        }
                                    },
                                    None => None,
                                }
                            },
                            None => None,
                        }
                    } else {
                        None
                    }
                },
                None => None,
            }
        }
    } else {
        None
    }
}

/// A canonical string body followed by a closing quote parses to exactly that
/// body.
pub proof fn lemma_parse_chars_canonical(s: Seq<char>, i: int, t: Seq<char>)
    requires
        0 <= i,
        i + esc_str(t).len() + 1 <= s.len(),
        s.subrange(i, i + esc_str(t).len() + 1) == esc_str(t) + seq!['"'],
    ensures
        sp_chars(s, i) == Some((t, i + esc_str(t).len() + 1)),
    decreases t.len(),
{
    let el = esc_str(t).len() as int;
    let sub = s.subrange(i, i + el + 1);
    if t.len() == 0 {
        assert(esc_str(t) =~= Seq::<char>::empty());
        assert(s[i] == sub[0]);
        assert(s[i] == '"');
        assert(t =~= Seq::<char>::empty());
    } else {
        let c = t[0];
        let e = esc_char(c);
        let t2 = t.drop_first();
        assert(esc_str(t) == e + esc_str(t2));
        let d = e.len() as int;
        let el2 = esc_str(t2).len() as int;
        assert(el == d + el2);
        assert(s[i] == sub[0]);
        assert(sub[0] == e[0]);
        assert(s.subrange(i + d, i + el + 1) =~= esc_str(t2) + seq!['"']) by {
            assert forall|m: int| 0 <= m < el2 + 1 implies s[i + d + m] == (esc_str(t2)
                + seq!['"'])[m] by {
                assert(s[i + d + m] == sub[d + m]);
                assert(sub[d + m] == (esc_str(t) + seq!['"'])[d + m]);
            }
        }
        if c == '"' || c == '\\' {
            assert(e == seq!['\\', c]);
            assert(s[i] == '\\');
            assert(s[i + 1] == sub[1]);
            assert(s[i + 1] == c);
            lemma_parse_chars_canonical(s, i + 2, t2);
            assert(sp_chars(s, i) == Some((seq![s[i + 1]] + t2, i + el + 1)));
            assert(seq![c] + t2 =~= t);
        } else {
            assert(e == seq![c]);
            assert(s[i] == c);
            lemma_parse_chars_canonical(s, i + 1, t2);
            assert(sp_chars(s, i) == Some((seq![s[i]] + t2, i + el + 1)));
            assert(seq![c] + t2 =~= t);
        }
    }
}

/// A canonical quoted string parses to exactly its content.
pub proof fn lemma_parse_string_canonical(s: Seq<char>, i: int, t: Seq<char>)
    requires
        0 <= i,
        i + json_string(t).len() <= s.len(),
        s.subrange(i, i + json_string(t).len()) == json_string(t),
    ensures
        sp_string(s, i) == Some((t, i + json_string(t).len())),
{
    let el = esc_str(t).len() as int;
    let sub = s.subrange(i, i + el + 2);
    assert(s[i] == sub[0]);
    assert(s[i] == '"');
    assert(s.subrange(i + 1, i + el + 2) =~= esc_str(t) + seq!['"']) by {
        assert forall|m: int| 0 <= m < el + 1 implies s[i + 1 + m] == (esc_str(t)
            + seq!['"'])[m] by {
            assert(s[i + 1 + m] == sub[1 + m]);
            assert(sub[1 + m] == json_string(t)[1 + m]);
        }
    }
    lemma_parse_chars_canonical(s, i + 1, t);
}

/// A canonical file-array tail parses to exactly its files.
pub proof fn lemma_parse_files_rest_canonical(s: Seq<char>, j: int, fs: Seq<Seq<char>>)
    requires
        0 <= j,
        j + json_files_rest(fs).len() <= s.len(),
        s.subrange(j, j + json_files_rest(fs).len()) == json_files_rest(fs),
    ensures
        sp_files_rest(s, j) == Some((fs, j + json_files_rest(fs).len())),
    decreases fs.len(),
{
    let ln = json_files_rest(fs).len() as int;
    let sub = s.subrange(j, j + ln);
    if fs.len() == 0 {
        assert(s[j] == sub[0]);
        assert(s[j] == ']');
        assert(fs =~= Seq::<Seq<char>>::empty());
    } else {
        let f0 = fs[0];
        let fs2 = fs.drop_first();
        assert(json_files_rest(fs) == seq![','] + json_string(f0) + json_files_rest(fs2));
        let jsl = json_string(f0).len() as int;
        let rl = json_files_rest(fs2).len() as int;
        assert(ln == 1 + jsl + rl);
        assert(s[j] == sub[0]);
        assert(s[j] == ',');
        assert(s.subrange(j + 1, j + 1 + jsl) =~= json_string(f0)) by {
            assert forall|m: int| 0 <= m < jsl implies s[j + 1 + m] == json_string(f0)[m] by {
                assert(s[j + 1 + m] == sub[1 + m]);
                assert(sub[1 + m] == json_files_rest(fs)[1 + m]);
            }
        }
        lemma_parse_string_canonical(s, j + 1, f0);
        let j2 = j + 1 + jsl;
        assert(s.subrange(j2, j2 + rl) =~= json_files_rest(fs2)) by {
            assert forall|m: int| 0 <= m < rl implies s[j2 + m] == json_files_rest(fs2)[m] by {
                assert(s[j2 + m] == sub[1 + jsl + m]);
                assert(sub[1 + jsl + m] == json_files_rest(fs)[1 + jsl + m]);
            }
        }
        lemma_parse_files_rest_canonical(s, j2, fs2);
        assert(sp_files_rest(s, j) == Some((seq![f0] + fs2, j + ln)));
        assert(seq![f0] + fs2 =~= fs);
    }
}

/// A canonical file array parses to exactly its files.
pub proof fn lemma_parse_files_canonical(s: Seq<char>, i: int, fs: Seq<Seq<char>>)
    requires
        0 <= i,
        i + json_files(fs).len() <= s.len(),
        s.subrange(i, i + json_files(fs).len()) == json_files(fs),
    ensures
        sp_files(s, i) == Some((fs, i + json_files(fs).len())),
{
    let ln = json_files(fs).len() as int;
    let sub = s.subrange(i, i + ln);
    assert(s[i] == sub[0]);
    assert(s[i] == '[');
    if fs.len() == 0 {
        assert(s[i + 1] == sub[1]);
        assert(s[i + 1] == ']');
        assert(fs =~= Seq::<Seq<char>>::empty());
    } else {
        let f0 = fs[0];
        let fs2 = fs.drop_first();
        assert(json_files(fs) == seq!['['] + json_string(f0) + json_files_rest(fs2));
        let jsl = json_string(f0).len() as int;
        let rl = json_files_rest(fs2).len() as int;
        assert(ln == 1 + jsl + rl);
        assert(s[i + 1] == sub[1]);
        assert(s[i + 1] == json_string(f0)[0]);
        assert(s[i + 1] == '"');
        assert(s.subrange(i + 1, i + 1 + jsl) =~= json_string(f0)) by {
            assert forall|m: int| 0 <= m < jsl implies s[i + 1 + m] == json_string(f0)[m] by {
                assert(s[i + 1 + m] == sub[1 + m]);
                assert(sub[1 + m] == json_files(fs)[1 + m]);
            }
        }
        lemma_parse_string_canonical(s, i + 1, f0);
        let j2 = i + 1 + jsl;
        assert(s.subrange(j2, j2 + rl) =~= json_files_rest(fs2)) by {
            assert forall|m: int| 0 <= m < rl implies s[j2 + m] == json_files_rest(fs2)[m] by {
                assert(s[j2 + m] == sub[1 + jsl + m]);
                assert(sub[1 + jsl + m] == json_files(fs)[1 + jsl + m]);
            }
        }
        lemma_parse_files_rest_canonical(s, j2, fs2);
        assert(sp_files(s, i) == Some((seq![f0] + fs2, i + ln)));
        assert(seq![f0] + fs2 =~= fs);
    }
}

/// A canonical tag-object tail parses to exactly its entries.
pub proof fn lemma_parse_entries_rest_canonical(s: Seq<char>, k: int, es: Entries)
    requires
        0 <= k,
        k + json_entries_rest(es).len() <= s.len(),
        s.subrange(k, k + json_entries_rest(es).len()) == json_entries_rest(es),
    ensures
        sp_entries_rest(s, k) == Some((es, k + json_entries_rest(es).len())),
    decreases es.len(),
{
    let ln = json_entries_rest(es).len() as int;
    let sub = s.subrange(k, k + ln);
    if es.len() == 0 {
        assert(s[k] == sub[0]);
        assert(s[k] == '}');
        assert(es =~= Seq::<(Seq<char>, Seq<Seq<char>>)>::empty());
    } else {
        let t0 = es[0].0;
        let f0 = es[0].1;
        let es2 = es.drop_first();
        assert(json_entries_rest(es) == seq![','] + json_string(t0) + seq![':'] + json_files(f0)
            + json_entries_rest(es2));
        let jsl = json_string(t0).len() as int;
        let jfl = json_files(f0).len() as int;
        let rl = json_entries_rest(es2).len() as int;
        assert(ln == 1 + jsl + 1 + jfl + rl);
        assert(s[k] == sub[0]);
        assert(s[k] == ',');
        assert(s.subrange(k + 1, k + 1 + jsl) =~= json_string(t0)) by {
            assert forall|m: int| 0 <= m < jsl implies s[k + 1 + m] == json_string(t0)[m] by {
                assert(s[k + 1 + m] == sub[1 + m]);
                assert(sub[1 + m] == json_entries_rest(es)[1 + m]);
            }
        }
        lemma_parse_string_canonical(s, k + 1, t0);
        let kc = k + 1 + jsl;
        assert(s[kc] == sub[1 + jsl]);
        assert(s[kc] == ':');
        assert(s.subrange(kc + 1, kc + 1 + jfl) =~= json_files(f0)) by {
            assert forall|m: int| 0 <= m < jfl implies s[kc + 1 + m] == json_files(f0)[m] by {
                assert(s[kc + 1 + m] == sub[2 + jsl + m]);
                assert(sub[2 + jsl + m] == json_entries_rest(es)[2 + jsl + m]);
            }
        }
        lemma_parse_files_canonical(s, kc + 1, f0);
        let kr = kc + 1 + jfl;
        assert(s.subrange(kr, kr + rl) =~= json_entries_rest(es2)) by {
            assert forall|m: int| 0 <= m < rl implies s[kr + m] == json_entries_rest(es2)[m] by {
                assert(s[kr + m] == sub[2 + jsl + jfl + m]);
                assert(sub[2 + jsl + jfl + m] == json_entries_rest(es)[2 + jsl + jfl + m]);
            }
        }
        lemma_parse_entries_rest_canonical(s, kr, es2);
        assert(sp_entries_rest(s, k) == Some((seq![(t0, f0)] + es2, k + ln)));
        assert((t0, f0) == es[0]);
        assert(seq![(t0, f0)] + es2 =~= es);
    }
}

/// The tail of the tag object is never empty text.
pub proof fn lemma_json_entries_rest_len(es: Entries)
    ensures
        json_entries_rest(es).len() >= 1,
{
    assert(json_entries_rest(es).len() >= 1);
}

/// Round trip of the storage format: the canonical text of any database
/// contents parses back to exactly those contents. Together with the
/// contracts of `TagDatabase::to_json` and `TagDatabase::from_json` this
/// says that saving a database and loading the result reproduces it.
pub proof fn lemma_round_trip(es: Entries)
    ensures
        sp_db(json_of(es)) == Some(es),
{
    let s = json_of(es);
    if es.len() == 0 {
        assert(s == json_header() + seq!['}', '}']);
        assert(s.len() == 11);
        assert(s.subrange(0, 9) =~= json_header());
        assert(s[9] == '}');
        assert(s[10] == '}');
        assert(es =~= Seq::<(Seq<char>, Seq<Seq<char>>)>::empty());
    } else {
        let t0 = es[0].0;
        let f0 = es[0].1;
        let es2 = es.drop_first();
        assert(s == json_header() + json_string(t0) + seq![':'] + json_files(f0)
            + json_entries_rest(es2) + seq!['}']);
        let jsl = json_string(t0).len() as int;
        let jfl = json_files(f0).len() as int;
        let rl = json_entries_rest(es2).len() as int;
        lemma_json_entries_rest_len(es2);
        assert(s.len() == 9 + jsl + 1 + jfl + rl + 1);
        assert(jsl >= 2);
        assert(jfl >= 2);
        assert(s.len() >= 11);
        assert(s.subrange(0, 9) =~= json_header());
        assert(s[9] == json_string(t0)[0]);
        assert(s[9] == '"');
        assert(s.subrange(9, 9 + jsl) =~= json_string(t0));
        lemma_parse_string_canonical(s, 9, t0);
        let kc = 9 + jsl;
        assert(s[kc] == ':');
        assert(s.subrange(kc + 1, kc + 1 + jfl) =~= json_files(f0));
        lemma_parse_files_canonical(s, kc + 1, f0);
        let kr = kc + 1 + jfl;
        assert(s.subrange(kr, kr + rl) =~= json_entries_rest(es2));
        lemma_parse_entries_rest_canonical(s, kr, es2);
        assert(kr + rl == s.len() - 1);
        assert(s[kr + rl] == '}');
        assert(sp_db(s) == Some(seq![(t0, f0)] + es2));
        assert((t0, f0) == es[0]);
        assert(seq![(t0, f0)] + es2 =~= es);
    }
}

/// Escaping one more character extends the escaped body at its end.
pub proof fn lemma_esc_str_snoc(p: Seq<char>, c: char)
    ensures
        esc_str(p.push(c)) == esc_str(p) + esc_char(c),
    decreases p.len(),
{
    if p.len() == 0 {
        assert(p.push(c).drop_first() =~= Seq::<char>::empty());
        assert(p.push(c)[0] == c);
        assert(esc_str(p.push(c)) == esc_char(c) + esc_str(p.push(c).drop_first()));
        assert(esc_str(p.push(c)) =~= esc_str(p) + esc_char(c));
    } else {
        assert(p.push(c).drop_first() =~= p.drop_first().push(c));
        assert(p.push(c)[0] == p[0]);
        assert(esc_str(p.push(c)) == esc_char(p[0]) + esc_str(p.drop_first().push(c)));
        lemma_esc_str_snoc(p.drop_first(), c);
        assert(esc_str(p.push(c)) =~= esc_str(p) + esc_char(c));
    }
}

/// Appends the quoted, escaped form of `t` to `out`.
fn emit_string(out: &mut Vec<char>, t: &String)
    ensures
        final(out)@ == old(out)@ + json_string(t@),
{
    out.push('"');
    let s = t.as_str();
    let n = s.unicode_len();
    let mut i: usize = 0;
    while i < n
        invariant
            0 <= i <= n,
            n == t@.len(),
            s@ == t@,
            out@ == old(out)@ + seq!['"'] + esc_str(t@.subrange(0, i as int)),
        decreases n - i,
    {
        let c = s.get_char(i);
        let ghost pre = t@.subrange(0, i as int);
        if c == '"' || c == '\\' {
            out.push('\\');
            out.push(c);
        } else {
            out.push(c);
        }
        proof {
            lemma_esc_str_snoc(pre, c);
            assert(t@.subrange(0, i + 1 as int) =~= pre.push(c));
            assert(out@ =~= old(out)@ + seq!['"'] + esc_str(t@.subrange(0, i + 1 as int)));
        }
        i = i + 1;
    }
    out.push('"');
    proof {
        assert(t@.subrange(0, n as int) =~= t@);
        assert(out@ =~= old(out)@ + json_string(t@));
    }
}

/// Unfolds the tail of a file array one element further in.
proof fn lemma_json_files_rest_skip(fs: Seq<Seq<char>>, k: int)
    requires
        0 <= k < fs.len(),
    ensures
        json_files_rest(fs.skip(k)) == seq![','] + json_string(fs[k]) + json_files_rest(
            fs.skip(k + 1),
        ),
{
    assert(fs.skip(k).len() == fs.len() - k);
    assert(fs.skip(k)[0] == fs[k]);
    assert(fs.skip(k).drop_first() =~= fs.skip(k + 1));
}

/// Appends the array form of `files` to `out`.
fn emit_files(out: &mut Vec<char>, files: &Vec<String>)
    ensures
        final(out)@ == old(out)@ + json_files(files.deep_view()),
{
    let ghost fs = files.deep_view();
    out.push('[');
    let n = files.len();
    proof {
        assert(fs.len() == n);
    }
    if n == 0 {
        out.push(']');
        proof {
            assert(out@ =~= old(out)@ + json_files(fs));
        }
        return ;
    }
    emit_string(out, &files[0]);
    proof {
        assert(fs[0] == files@[0]@);
        assert(out@ =~= old(out)@ + seq!['['] + json_string(fs[0]));
        assert(old(out)@ + json_files(fs) =~= out@ + json_files_rest(fs.skip(1)));
    }
    let mut k: usize = 1;
    while k < n
        invariant
            1 <= k <= n,
            n == fs.len(),
            fs == files.deep_view(),
            n == files@.len(),
            old(out)@ + json_files(fs) == out@ + json_files_rest(fs.skip(k as int)),
        decreases n - k,
    {
        out.push(',');
        emit_string(out, &files[k]);
        proof {
            lemma_json_files_rest_skip(fs, k as int);
            assert(fs[k as int] == files@[k as int]@);
            assert(old(out)@ + json_files(fs) =~= out@ + json_files_rest(fs.skip(k + 1)));
        }
        k = k + 1;
    }
    out.push(']');
    proof {
        assert(fs.skip(n as int) =~= Seq::<Seq<char>>::empty());
        assert(json_files_rest(fs.skip(n as int)) =~= seq![']']);
        assert(out@ =~= old(out)@ + json_files(fs));
    }
}

/// Unfolds the tail of the tag object one entry further in.
proof fn lemma_json_entries_rest_skip(es: Entries, k: int)
    requires
        0 <= k < es.len(),
    ensures
        json_entries_rest(es.skip(k)) == seq![','] + json_string(es[k].0) + seq![':'] + json_files(
            es[k].1,
        ) + json_entries_rest(es.skip(k + 1)),
{
    assert(es.skip(k).len() == es.len() - k);
    assert(es.skip(k)[0] == es[k]);
    assert(es.skip(k).drop_first() =~= es.skip(k + 1));
}

impl TagDatabase {
    /// Serializes the database to its canonical storage text. The text
    /// parses back to exactly the database's contents (the round-trip law).
    pub fn to_json(&self) -> (r: String)
        ensures
            r@ == json_of(self@),
            sp_db(r@) == Some(self@),
    {
        let ghost es = self@;
        let mut out: Vec<char> = Vec::new();
        out.push('{');
        out.push('"');
        out.push('t');
        out.push('a');
        out.push('g');
        out.push('s');
        out.push('"');
        out.push(':');
        out.push('{');
        proof {
            assert(out@ =~= json_header());
        }
        let n = self.tags.len();
        proof {
            assert(es.len() == n);
        }
        if n == 0 {
            out.push('}');
            out.push('}');
            proof {
                assert(out@ =~= json_of(es));
                lemma_round_trip(es);
            }
            return chars_to_string(&out);
        }
        emit_string(&mut out, &self.tags[0].tag);
        out.push(':');
        emit_files(&mut out, &self.tags[0].files);
        proof {
            assert(es[0].0 == self.tags@[0].tag@);
            assert(es[0].1 == self.tags@[0].files.deep_view());
            assert(json_of(es) =~= out@ + json_entries_rest(es.skip(1)) + seq!['}']);
        }
        let mut k: usize = 1;
        while k < n
            invariant
                1 <= k <= n,
                n == es.len(),
                es == self@,
                n == self.tags@.len(),
                json_of(es) == out@ + json_entries_rest(es.skip(k as int)) + seq!['}'],
            decreases n - k,
        {
            out.push(',');
            emit_string(&mut out, &self.tags[k].tag);
            out.push(':');
            emit_files(&mut out, &self.tags[k].files);
            proof {
                lemma_json_entries_rest_skip(es, k as int);
                assert(es[k as int].0 == self.tags@[k as int].tag@);
                assert(es[k as int].1 == self.tags@[k as int].files.deep_view());
                assert(json_of(es) =~= out@ + json_entries_rest(es.skip(k + 1)) + seq!['}']);
            }
            k = k + 1;
        }
        out.push('}');
        out.push('}');
        proof {
            assert(es.skip(n as int) =~= Seq::<(Seq<char>, Seq<Seq<char>>)>::empty());
            assert(json_entries_rest(es.skip(n as int)) =~= seq!['}']);
            assert(out@ =~= json_of(es));
            lemma_round_trip(es);
        }
        chars_to_string(&out)
    }
}

/// Saving a database loaded from any well-formed storage text produces text
/// that loads back to the same contents.
pub proof fn lemma_load_save_load(s: Seq<char>)
    requires
        sp_db(s) is Some,
    ensures
        sp_db(json_of(sp_db(s)->Some_0)) == sp_db(s),
{
    lemma_round_trip(sp_db(s)->Some_0);
}

/// Why a storage text was rejected.
#[derive(Clone, Copy, Debug, PartialEq, Eq, Structural)]
pub enum ParseError {
    /// The text does not follow the storage grammar.
    Malformed,
    /// The text follows the grammar but breaks the database invariant:
    /// a repeated tag, an empty file list, or a repeated file under one tag.
    Invalid,
}

/// Parses a string body, mirroring `sp_chars`.
fn p_chars(v: &Vec<char>, i: usize) -> (r: Option<(Vec<char>, usize)>)
    requires
        i <= v@.len(),
    ensures
        r is Some <==> sp_chars(v@, i as int) is Some,
        r matches Some(p) ==> p.1 <= v@.len() && sp_chars(v@, i as int) == Some((
            p.0@,
            p.1 as int,
        )),
    decreases v@.len() - i,
{
    proof {
        lemma_sp_chars_bounds(v@, i as int);
    }
    if i >= v.len() {
        return None;
    }
    let c = v[i];
    if c == '"' {
        Some((Vec::new(), i + 1))
    } else if c == '\\' {
        if i + 1 < v.len() && (v[i + 1] == '"' || v[i + 1] == '\\') {
            match p_chars(v, i + 2) {
                Some(p) => {
                    let (mut t, j) = p;
                    t.insert(0, v[i + 1]);
                    proof {
                        assert(t@ =~= seq![v@[i + 1]] + t@.drop_first());
                    }
                    Some((t, j))
                },
                None => None,
            }
        } else {
            None
        }
    } else {
        match p_chars(v, i + 1) {
            Some(p) => {
                let (mut t, j) = p;
                t.insert(0, c);
                proof {
                    assert(t@ =~= seq![v@[i as int]] + t@.drop_first());
                }
                Some((t, j))
            },
            None => None,
        }
    }
}

/// Parses a quoted string, mirroring `sp_string`.
fn p_string(v: &Vec<char>, i: usize) -> (r: Option<(String, usize)>)
    requires
        i <= v@.len(),
    ensures
        r is Some <==> sp_string(v@, i as int) is Some,
        r matches Some(p) ==> p.1 <= v@.len() && sp_string(v@, i as int) == Some((
            p.0@,
            p.1 as int,
        )),
{
    if i < v.len() && v[i] == '"' {
        match p_chars(v, i + 1) {
            Some(p) => {
                let (t, j) = p;
                Some((chars_to_string(&t), j))
            },
            None => None,
        }
    } else {
        None
    }
}

/// Parses the tail of a file array, mirroring `sp_files_rest`.
fn p_files_rest(v: &Vec<char>, j: usize) -> (r: Option<(Vec<String>, usize)>)
    requires
        j <= v@.len(),
    ensures
        r is Some <==> sp_files_rest(v@, j as int) is Some,
        r matches Some(p) ==> p.1 <= v@.len() && sp_files_rest(v@, j as int) == Some((
            p.0.deep_view(),
            p.1 as int,
        )),
    decreases v@.len() - j,
{
    proof {
        lemma_sp_files_rest_bounds(v@, j as int);
    }
    if j >= v.len() {
        return None;
    }
    let c = v[j];
    if c == ']' {
        let files: Vec<String> = Vec::new();
        proof {
            assert(files.deep_view() =~= Seq::<Seq<char>>::empty());
        }
        Some((files, j + 1))
    } else if c == ',' {
        match p_string(v, j + 1) {
            Some(p) => {
                let (f, j2) = p;
                proof {
                    lemma_sp_string_bounds(v@, j + 1);
                }
                match p_files_rest(v, j2) {
                    Some(q) => {
                        let (mut fs, j3) = q;
                        fs.insert(0, f);
                        proof {
                            assert(fs.deep_view() =~= seq![f@] + fs.deep_view().drop_first());
                        }
                        Some((fs, j3))
                    },
                    None => None,
                }
            },
            None => None,
        }
    } else {
        None
    }
}

/// Parses a file array, mirroring `sp_files`.
fn p_files(v: &Vec<char>, i: usize) -> (r: Option<(Vec<String>, usize)>)
    requires
        i <= v@.len(),
    ensures
        r is Some <==> sp_files(v@, i as int) is Some,
        r matches Some(p) ==> p.1 <= v@.len() && sp_files(v@, i as int) == Some((
            p.0.deep_view(),
            p.1 as int,
        )),
{
    if i < v.len() && v[i] == '[' {
        if i + 1 < v.len() && v[i + 1] == ']' {
            let files: Vec<String> = Vec::new();
            proof {
                assert(files.deep_view() =~= Seq::<Seq<char>>::empty());
            }
            Some((files, i + 2))
        } else {
            match p_string(v, i + 1) {
                Some(p) => {
                    let (f, j2) = p;
                    match p_files_rest(v, j2) {
                        Some(q) => {
                            let (mut fs, j3) = q;
                            fs.insert(0, f);
                            proof {
                                assert(fs.deep_view() =~= seq![f@] + fs.deep_view().drop_first());
                            }
                            Some((fs, j3))
                        },
                        None => None,
                    }
                },
                None => None,
            }
        }
    } else {
        None
    }
}

/// The view of a parsed entry vector, as database contents.
pub open spec fn entries_view(tags: Seq<TagEntry>) -> Entries {
    tags.map_values(|e: TagEntry| e@)
}

/// Parses the tail of the tag object, mirroring `sp_entries_rest`.
fn p_entries_rest(v: &Vec<char>, k: usize) -> (r: Option<(Vec<TagEntry>, usize)>)
    requires
        k <= v@.len(),
    ensures
        r is Some <==> sp_entries_rest(v@, k as int) is Some,
        r matches Some(p) ==> p.1 <= v@.len() && sp_entries_rest(v@, k as int) == Some((
            entries_view(p.0@),
            p.1 as int,
        )),
    decreases v@.len() - k,
{
    proof {
        lemma_sp_entries_rest_bounds(v@, k as int);
    }
    if k >= v.len() {
        return None;
    }
    let c = v[k];
    if c == '}' {
        let tags: Vec<TagEntry> = Vec::new();
        proof {
            assert(entries_view(tags@) =~= Seq::<(Seq<char>, Seq<Seq<char>>)>::empty());
        }
        Some((tags, k + 1))
    } else if c == ',' {
        match p_string(v, k + 1) {
            Some(p) => {
                let (t, k2) = p;
                if k2 < v.len() && v[k2] == ':' {
                    match p_files(v, k2 + 1) {
                        Some(q) => {
                            let (fs, k3) = q;
                            proof {
                                lemma_sp_string_bounds(v@, k + 1);
                                lemma_sp_files_bounds(v@, k2 + 1);
                            }
                            match p_entries_rest(v, k3) {
                                Some(w) => {
                                    let (mut tags, k4) = w;
                                    let entry = TagEntry { tag: t, files: fs };
                                    tags.insert(0, entry);
                                    proof {
                                        assert(entries_view(tags@) =~= seq![(t@, fs.deep_view())]
                                            + entries_view(tags@.drop_first()));
                                    }
                                    Some((tags, k4))
                                },
                                None => None,
                            }
                        },
                        None => None,
                    }
                } else {
                    None
                }
            },
            None => None,
        }
    } else {
        None
    }
}

/// Parses a whole document, mirroring `sp_db`.
fn p_db(v: &Vec<char>) -> (r: Option<Vec<TagEntry>>)
    ensures
        r is Some <==> sp_db(v@) is Some,
        r matches Some(tags) ==> sp_db(v@) == Some(entries_view(tags@)),
{
    if v.len() < 11 {
        return None;
    }
    if !(v[0] == '{' && v[1] == '"' && v[2] == 't' && v[3] == 'a' && v[4] == 'g' && v[5] == 's'
        && v[6] == '"' && v[7] == ':' && v[8] == '{') {
        proof {
            assert(v@.subrange(0, 9) != json_header()) by {
                if v@.subrange(0, 9) == json_header() {
                    assert(v@[0] == v@.subrange(0, 9)[0]);
                    assert(v@[1] == v@.subrange(0, 9)[1]);
                    assert(v@[2] == v@.subrange(0, 9)[2]);
                    assert(v@[3] == v@.subrange(0, 9)[3]);
                    assert(v@[4] == v@.subrange(0, 9)[4]);
                    assert(v@[5] == v@.subrange(0, 9)[5]);
                    assert(v@[6] == v@.subrange(0, 9)[6]);
                    assert(v@[7] == v@.subrange(0, 9)[7]);
                    assert(v@[8] == v@.subrange(0, 9)[8]);
                }
            }
        }
        return None;
    }
    proof {
        assert(v@.subrange(0, 9) =~= json_header());
    }
    if v[9] == '}' {
        if v.len() == 11 && v[10] == '}' {
            let tags: Vec<TagEntry> = Vec::new();
            proof {
                assert(entries_view(tags@) =~= Seq::<(Seq<char>, Seq<Seq<char>>)>::empty());
            }
            Some(tags)
        } else {
            None
        }
    } else {
        match p_string(v, 9) {
            Some(p) => {
                let (t, k2) = p;
                if k2 < v.len() && v[k2] == ':' {
                    match p_files(v, k2 + 1) {
                        Some(q) => {
                            let (fs, k3) = q;
                            match p_entries_rest(v, k3) {
                                Some(w) => {
                                    let (mut tags, k4) = w;
                                    if k4 == v.len() - 1 && v[k4] == '}' {
                                        let entry = TagEntry { tag: t, files: fs };
                                        tags.insert(0, entry);
                                        proof {
                                            assert(entries_view(tags@) =~= seq![
                                                (t@, fs.deep_view()),
                                            ] + entries_view(tags@.drop_first()));
                                        }
                                        Some(tags)
                                    } else {
                                        None
                                    }
                                },
                                None => None,
                            }
                        },
                        None => None,
                    }
                } else {
                    None
                }
            },
            None => None,
        }
    }
}

/// Decides whether parsed entries satisfy the database invariant: unique
/// tags, no empty file list, no file twice under one tag.
fn check_wf(tags: &Vec<TagEntry>) -> (r: bool)
    ensures
        r == wf_entries(entries_view(tags@)),
{
    let ghost es = entries_view(tags@);
    let n = tags.len();
    let mut i: usize = 0;
    while i < n
        invariant
            0 <= i <= n,
            n == tags@.len(),
            es == entries_view(tags@),
            forall|a: int, b: int| 0 <= a < b < i ==> es[a].0 != es[b].0,
            forall|a: int| 0 <= a < i ==> es[a].1.len() > 0,
            forall|a: int, p: int, q: int|
                0 <= a < i && 0 <= p < q < es[a].1.len() ==> es[a].1[p] != es[a].1[q],
        decreases n - i,
    {
        if tags[i].files.len() == 0 {
            proof {
                assert(es[i as int] == tags@[i as int]@);
                assert(es[i as int].1.len() == 0);
            }
            return false;
        }
        let mut j: usize = 0;
        while j < i
            invariant
                0 <= j <= i < n,
                n == tags@.len(),
                es == entries_view(tags@),
                forall|a: int| 0 <= a < j ==> es[a].0 != es[i as int].0,
            decreases i - j,
        {
            if tags[j].tag == tags[i].tag {
                proof {
                    assert(es[j as int] == tags@[j as int]@);
                    assert(es[i as int] == tags@[i as int]@);
                    assert(es[j as int].0 == es[i as int].0);
                }
                return false;
            }
            j = j + 1;
        }
        let m = tags[i].files.len();
        let mut p: usize = 0;
        while p < m
            invariant
                0 <= p <= m,
                i < n,
                n == tags@.len(),
                m == tags@[i as int].files@.len(),
                es == entries_view(tags@),
                es[i as int].1.len() == m,
                forall|a: int, b: int| 0 <= a < b < p ==> es[i as int].1[a] != es[i as int].1[b],
            decreases m - p,
        {
            let mut q: usize = 0;
            while q < p
                invariant
                    0 <= q <= p < m,
                    i < n,
                    n == tags@.len(),
                    m == tags@[i as int].files@.len(),
                    es == entries_view(tags@),
                    es[i as int].1.len() == m,
                    forall|a: int| 0 <= a < q ==> es[i as int].1[a] != es[i as int].1[p as int],
                decreases p - q,
            {
                if tags[i].files[q] == tags[i].files[p] {
                    proof {
                        assert(es[i as int] == tags@[i as int]@);
                        assert(es[i as int].1[q as int] == es[i as int].1[p as int]);
                    }
                    return false;
                }
                q = q + 1;
            }
            p = p + 1;
        }
        i = i + 1;
    }
    true
}

impl TagDatabase {
    /// Parses storage text into a database. Text outside the grammar is
    /// `Malformed`; text inside the grammar whose contents break the
    /// database invariant is `Invalid`; any other text yields the database
    /// it denotes, exactly if and only if.
    pub fn from_json(s: &str) -> (r: Result<TagDatabase, ParseError>)
        ensures
            r is Ok <==> (sp_db(s@) matches Some(e) && wf_entries(e)),
            r matches Ok(db) ==> Some(db@) == sp_db(s@) && db.wf(),
            r == Result::<TagDatabase, ParseError>::Err(ParseError::Malformed) <==> sp_db(s@)
                is None,
            r == Result::<TagDatabase, ParseError>::Err(ParseError::Invalid) <==> (sp_db(s@)
                matches Some(e) && !wf_entries(e)),
    {
        let v = str_chars(s);
        match p_db(&v) {
            Some(tags) => {
                if check_wf(&tags) {
                    Ok(TagDatabase { tags })
                } else {
                    Err(ParseError::Invalid)
                }
            },
            None => Err(ParseError::Malformed),
        }
    }
}

} // verus!
