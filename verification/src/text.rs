//! Text groundwork: the whitespace model, the normalization applied to
//! measurement cells, splitting on whitespace runs, and trimming.

use vstd::prelude::*;
use vstd::string::StrSliceExecFns;

verus! {

/// The characters with the Unicode `White_Space` property: exactly the set
/// that `str::split_whitespace` splits on and `str::trim` removes.
pub open spec fn is_ws_char(c: char) -> bool {
    let u = c as u32;
    ||| u == 0x20
    ||| (0x09 <= u && u <= 0x0D)
    ||| u == 0x85
    ||| u == 0xA0
    ||| u == 0x1680
    ||| (0x2000 <= u && u <= 0x200A)
    ||| u == 0x2028
    ||| u == 0x2029
    ||| u == 0x202F
    ||| u == 0x205F
    ||| u == 0x3000
}

/// Runtime test for `is_ws_char`.
pub fn char_is_ws(c: char) -> (r: bool)
    ensures
        r == is_ws_char(c),
{
    let u = c as u32;
    u == 0x20 || (0x09 <= u && u <= 0x0D) || u == 0x85 || u == 0xA0 || u == 0x1680
        || (0x2000 <= u && u <= 0x200A) || u == 0x2028 || u == 0x2029 || u == 0x202F
        || u == 0x205F || u == 0x3000
}

/// A full-width colon is rewritten to a plain colon.
pub open spec fn fold_colon_char(c: char) -> char {
    if c == '：' {
        ':'
    } else {
        c
    }
}

/// A full-width (ideographic) space is rewritten to a plain space.
pub open spec fn fold_space_char(c: char) -> char {
    if c == '　' {
        ' '
    } else {
        c
    }
}

pub open spec fn fold_colons(s: Seq<char>) -> Seq<char> {
    s.map_values(|c: char| fold_colon_char(c))
}

pub open spec fn fold_spaces(s: Seq<char>) -> Seq<char> {
    s.map_values(|c: char| fold_space_char(c))
}

/// One space immediately following a colon is dropped; the scan is left to
/// right and non-overlapping, as a single-pass substring replacement of
/// `": "` by `":"` behaves.
pub open spec fn drop_space_after_colon(s: Seq<char>) -> Seq<char>
    decreases s.len(),
{
    if s.len() == 0 {
        Seq::empty()
    } else if s.len() >= 2 && s[0] == ':' && s[1] == ' ' {
        seq![':'] + drop_space_after_colon(s.skip(2))
    } else {
        seq![s[0]] + drop_space_after_colon(s.skip(1))
    }
}

/// The normalization applied to a measurement cell before tokenization:
/// full-width colons become plain colons, then a single space after a colon
/// is dropped, then full-width spaces become plain spaces.
pub open spec fn normalize_text(s: Seq<char>) -> Seq<char> {
    fold_spaces(drop_space_after_colon(fold_colons(s)))
}

/// The views of a sequence of character vectors.
pub open spec fn seq_views(s: Seq<Vec<char>>) -> Seq<Seq<char>> {
    s.map_values(|t: Vec<char>| t@)
}

/// The views of a sequence of strings.
pub open spec fn str_views(s: Seq<String>) -> Seq<Seq<char>> {
    s.map_values(|t: String| t@)
}

/// Splitting on whitespace runs, with the token built so far carried as an
/// accumulator.
pub open spec fn split_ws_acc(s: Seq<char>, cur: Seq<char>) -> Seq<Seq<char>>
    decreases s.len(),
{
    if s.len() == 0 {
        if cur.len() == 0 {
            Seq::empty()
        } else {
            seq![cur]
        }
    } else if is_ws_char(s[0]) {
        if cur.len() == 0 {
            split_ws_acc(s.skip(1), Seq::empty())
        } else {
            seq![cur] + split_ws_acc(s.skip(1), Seq::empty())
        }
    } else {
        split_ws_acc(s.skip(1), cur.push(s[0]))
    }
}

/// The maximal whitespace-free runs of `s`, in order: what
/// `str::split_whitespace` yields.
pub open spec fn split_ws(s: Seq<char>) -> Seq<Seq<char>> {
    split_ws_acc(s, Seq::empty())
}

/// Leading whitespace removed.
pub open spec fn trim_front(s: Seq<char>) -> Seq<char>
    decreases s.len(),
{
    if s.len() > 0 && is_ws_char(s[0]) {
        trim_front(s.skip(1))
    } else {
        s
    }
}

/// Trailing whitespace removed.
pub open spec fn trim_back(s: Seq<char>) -> Seq<char>
    decreases s.len(),
{
    if s.len() > 0 && is_ws_char(s.last()) {
        trim_back(s.drop_last())
    } else {
        s
    }
}

/// Surrounding whitespace removed: what `str::trim` returns.
pub open spec fn trim_spec(s: Seq<char>) -> Seq<char> {
    trim_back(trim_front(s))
}

/// The characters of a string, in order.
pub fn str_to_chars(s: &str) -> (v: Vec<char>)
    ensures
        v@ == s@,
{
    let n: usize = s.unicode_len();
    let mut v: Vec<char> = Vec::new();
    let mut i: usize = 0;
    while i < n
        invariant
            i <= n,
            n == s@.len(),
            v@ == s@.take(i as int),
        decreases n - i,
    {
        let c = s.get_char(i);
        v.push(c);
        proof {
            assert(s@.take(i + 1 as int) =~= s@.take(i as int).push(s@[i as int]));
        }
        i = i + 1;
    }
    proof {
        assert(s@.take(n as int) =~= s@);
    }
    v
}

/// Relies on `String`'s `FromIterator<char>` implementation: collecting
/// characters yields the string holding exactly those characters in order.
#[verifier::external_body]
pub fn chars_to_string(v: &Vec<char>) -> (r: String)
    ensures
        r@ == v@,
{
    v.iter().collect()
}

fn fold_colons_exec(v: &Vec<char>) -> (r: Vec<char>)
    ensures
        r@ == fold_colons(v@),
{
    let mut out: Vec<char> = Vec::new();
    let mut i: usize = 0;
    while i < v.len()
        invariant
            i <= v@.len(),
            out@ == fold_colons(v@.take(i as int)),
        decreases v@.len() - i,
    {
        let c = v[i];
        if c == '：' {
            out.push(':');
        } else {
            out.push(c);
        }
        proof {
            assert(fold_colons(v@.take(i + 1 as int)) =~= fold_colons(v@.take(i as int)).push(
                fold_colon_char(v@[i as int]),
            ));
        }
        i = i + 1;
    }
    proof {
        assert(v@.take(v@.len() as int) =~= v@);
    }
    out
}

fn fold_spaces_exec(v: &Vec<char>) -> (r: Vec<char>)
    ensures
        r@ == fold_spaces(v@),
{
    let mut out: Vec<char> = Vec::new();
    let mut i: usize = 0;
    while i < v.len()
        invariant
            i <= v@.len(),
            out@ == fold_spaces(v@.take(i as int)),
        decreases v@.len() - i,
    {
        let c = v[i];
        if c == '　' {
            out.push(' ');
        } else {
            out.push(c);
        }
        proof {
            assert(fold_spaces(v@.take(i + 1 as int)) =~= fold_spaces(v@.take(i as int)).push(
                fold_space_char(v@[i as int]),
            ));
        }
        i = i + 1;
    }
    proof {
        assert(v@.take(v@.len() as int) =~= v@);
    }
    out
}

fn drop_space_after_colon_exec(v: &Vec<char>) -> (r: Vec<char>)
    ensures
        r@ == drop_space_after_colon(v@),
{
    let mut out: Vec<char> = Vec::new();
    let mut i: usize = 0;
    proof {
        assert(v@.skip(0) =~= v@);
        assert(Seq::<char>::empty() + drop_space_after_colon(v@) =~= drop_space_after_colon(v@));
    }
    while i < v.len()
        invariant
            i <= v@.len(),
            drop_space_after_colon(v@) == out@ + drop_space_after_colon(v@.skip(i as int)),
        decreases v@.len() - i,
    {
        let ghost s0 = v@.skip(i as int);
        proof {
            assert(s0[0] == v@[i as int]);
            if s0.len() >= 2 {
                assert(s0[1] == v@[i + 1 as int]);
            }
        }
        if v[i] == ':' && i + 1 < v.len() && v[i + 1] == ' ' {
            out.push(':');
            proof {
                assert(s0.skip(2) =~= v@.skip(i + 2 as int));
                assert(out@ + drop_space_after_colon(v@.skip(i + 2 as int)) =~= (out@.drop_last()
                    + drop_space_after_colon(s0)));
            }
            i = i + 2;
        } else {
            out.push(v[i]);
            proof {
                assert(s0.skip(1) =~= v@.skip(i + 1 as int));
                assert(out@ + drop_space_after_colon(v@.skip(i + 1 as int)) =~= (out@.drop_last()
                    + drop_space_after_colon(s0)));
            }
            i = i + 1;
        }
    }
    proof {
        assert(v@.skip(v@.len() as int) =~= Seq::<char>::empty());
        assert(out@ + drop_space_after_colon(Seq::<char>::empty()) =~= out@);
    }
    out
}

/// The normalization over character vectors.
pub fn normalize_chars(v: &Vec<char>) -> (r: Vec<char>)
    ensures
        r@ == normalize_text(v@),
{
    let a = fold_colons_exec(v);
    let b = drop_space_after_colon_exec(&a);
    fold_spaces_exec(&b)
}

/// Rewrites a full-width colon to a plain colon, drops one space right after
/// a colon, and rewrites a full-width space to a plain space.
pub fn escape_colon_whitespace(s: &str) -> (r: String)
    ensures
        r@ == normalize_text(s@),
{
    let v = str_to_chars(s);
    let n = normalize_chars(&v);
    chars_to_string(&n)
}

/// Splits into maximal whitespace-free runs.
pub fn split_ws_exec(v: &Vec<char>) -> (r: Vec<Vec<char>>)
    ensures
        seq_views(r@) == split_ws(v@),
{
    let mut out: Vec<Vec<char>> = Vec::new();
    let mut cur: Vec<char> = Vec::new();
    let mut i: usize = 0;
    proof {
        assert(v@.skip(0) =~= v@);
        assert(cur@ =~= Seq::<char>::empty());
        assert(seq_views(out@) + split_ws_acc(v@, cur@) =~= split_ws_acc(v@, cur@));
    }
    while i < v.len()
        invariant
            i <= v@.len(),
            split_ws(v@) == seq_views(out@) + split_ws_acc(v@.skip(i as int), cur@),
        decreases v@.len() - i,
    {
        let ghost s0 = v@.skip(i as int);
        proof {
            assert(s0[0] == v@[i as int]);
            assert(s0.skip(1) =~= v@.skip(i + 1 as int));
        }
        let c = v[i];
        if char_is_ws(c) {
            if cur.len() > 0 {
                let done = cur;
                cur = Vec::new();
                let ghost prev = out@;
                out.push(done);
                proof {
                    assert(split_ws_acc(s0, done@) == seq![done@] + split_ws_acc(
                        v@.skip(i + 1 as int),
                        Seq::<char>::empty(),
                    ));
                    assert(seq_views(out@) =~= seq_views(prev).push(done@));
                    assert(seq_views(prev) + (seq![done@] + split_ws_acc(
                        v@.skip(i + 1 as int),
                        cur@,
                    )) =~= seq_views(out@) + split_ws_acc(v@.skip(i + 1 as int), cur@));
                }
            } else {
                proof {
                    assert(cur@ =~= Seq::<char>::empty());
                }
            }
        } else {
            cur.push(c);
        }
        i = i + 1;
    }
    proof {
        assert(v@.skip(v@.len() as int) =~= Seq::<char>::empty());
    }
    if cur.len() > 0 {
        let done = cur;
        let ghost prev = out@;
        out.push(done);
        proof {
            assert(split_ws_acc(Seq::<char>::empty(), done@) == seq![done@]);
            assert(seq_views(out@) =~= seq_views(prev).push(done@));
            assert(seq_views(prev) + seq![done@] =~= seq_views(out@));
        }
    } else {
        proof {
            assert(cur@ =~= Seq::<char>::empty());
            assert(seq_views(out@) + split_ws_acc(Seq::<char>::empty(), cur@) =~= seq_views(out@));
        }
    }
    out
}

/// Copies `v[from..to]`.
pub fn sub_chars(v: &Vec<char>, from: usize, to: usize) -> (r: Vec<char>)
    requires
        from <= to <= v@.len(),
    ensures
        r@ == v@.subrange(from as int, to as int),
{
    let mut out: Vec<char> = Vec::new();
    let mut i: usize = from;
    while i < to
        invariant
            from <= i <= to <= v@.len(),
            out@ == v@.subrange(from as int, i as int),
        decreases to - i,
    {
        out.push(v[i]);
        proof {
            assert(v@.subrange(from as int, i + 1 as int) =~= v@.subrange(
                from as int,
                i as int,
            ).push(v@[i as int]));
        }
        i = i + 1;
    }
    out
}

/// Surrounding whitespace removed.
pub fn trim_chars(v: &Vec<char>) -> (r: Vec<char>)
    ensures
        r@ == trim_spec(v@),
{
    let mut a: usize = 0;
    proof {
        assert(v@.skip(0) =~= v@);
    }
    while a < v.len() && char_is_ws(v[a])
        invariant
            a <= v@.len(),
            trim_front(v@) == trim_front(v@.skip(a as int)),
        decreases v@.len() - a,
    {
        proof {
            let s0 = v@.skip(a as int);
            assert(s0[0] == v@[a as int]);
            assert(s0.skip(1) =~= v@.skip(a + 1 as int));
        }
        a = a + 1;
    }
    proof {
        let s0 = v@.skip(a as int);
        if a < v@.len() {
            assert(s0[0] == v@[a as int]);
        } else {
            assert(s0 =~= Seq::<char>::empty());
        }
        assert(trim_front(v@) == v@.skip(a as int));
        assert(v@.skip(a as int) =~= v@.subrange(a as int, v@.len() as int));
    }
    let mut b: usize = v.len();
    while b > a && char_is_ws(v[b - 1])
        invariant
            a <= b <= v@.len(),
            trim_front(v@) == v@.skip(a as int),
            trim_back(v@.skip(a as int)) == trim_back(v@.subrange(a as int, b as int)),
        decreases b,
    {
        proof {
            let s0 = v@.subrange(a as int, b as int);
            assert(s0.last() == v@[b - 1 as int]);
            assert(s0.drop_last() =~= v@.subrange(a as int, b - 1 as int));
        }
        b = b - 1;
    }
    proof {
        assert(v@.skip(a as int) =~= v@.subrange(a as int, v@.len() as int));
        let s0 = v@.subrange(a as int, b as int);
        if b > a {
            assert(s0.last() == v@[b - 1 as int]);
        }
        assert(trim_back(s0) == s0);
    }
    sub_chars(v, a, b)
}

} // verus!
