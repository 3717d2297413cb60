//! Laws of the measurement grammar, proved once and for all: a well-formed
//! `name:value` token parses to exactly that pair, and a parsed cell survives
//! a rebuild-and-reparse round trip unchanged.

use vstd::prelude::*;
use crate::grammar::{
    colon_at, count_colons, grammar_ok, grammar_pairs, lemma_colon_at_is, lemma_colon_exists,
    lemma_count_colons_parts, lemma_count_colons_zero, lemma_one_colon_unique, token_list,
    token_name, token_ok, token_value,
};
use crate::text::{
    drop_space_after_colon, fold_colons, fold_space_char, fold_spaces, is_ws_char,
    normalize_text, split_ws, split_ws_acc,
};

verus! {

/// No character of `s` is whitespace.
pub open spec fn no_ws(s: Seq<char>) -> bool {
    forall|i: int| 0 <= i < s.len() ==> !is_ws_char(#[trigger] s[i])
}

/// No character of `s` is a colon.
pub open spec fn no_colon(s: Seq<char>) -> bool {
    forall|i: int| 0 <= i < s.len() ==> #[trigger] s[i] != ':'
}

/// No character of `s` is one of the two full-width characters that
/// normalization rewrites.
pub open spec fn no_fullwidth(s: Seq<char>) -> bool {
    forall|i: int| 0 <= i < s.len() ==> #[trigger] s[i] != '：' && s[i] != '　'
}

/// No colon of `s` is immediately followed by a space.
pub open spec fn no_colon_space(s: Seq<char>) -> bool {
    forall|i: int| 0 <= i < s.len() - 1 ==> !(#[trigger] s[i] == ':' && s[i + 1] == ' ')
}

/// Normalization leaves a text without full-width characters and without a
/// colon-space pair exactly as it is.
proof fn lemma_normalize_identity(s: Seq<char>)
    requires
        no_fullwidth(s),
        no_colon_space(s),
    ensures
        normalize_text(s) == s,
{
    assert(fold_colons(s) =~= s);
    lemma_drop_space_identity(s);
    assert(fold_spaces(s) =~= s);
}

proof fn lemma_drop_space_identity(s: Seq<char>)
    requires
        no_colon_space(s),
    ensures
        drop_space_after_colon(s) == s,
    decreases s.len(),
{
    if s.len() > 0 {
        assert(!(s.len() >= 2 && s[0] == ':' && s[1] == ' '));
        assert(no_colon_space(s.skip(1))) by {
            assert(forall|i: int| 0 <= i < s.len() - 1 ==> s.skip(1)[i] == s[i + 1]);
        }
        lemma_drop_space_identity(s.skip(1));
        assert(seq![s[0]] + s.skip(1) =~= s);
    }
}

/// Splitting a text with no whitespace at all yields it as the one token,
/// appended to whatever the accumulator already holds.
proof fn lemma_split_acc_no_ws(s: Seq<char>, cur: Seq<char>)
    requires
        no_ws(s),
        cur.len() + s.len() > 0,
    ensures
        split_ws_acc(s, cur) == seq![cur + s],
    decreases s.len(),
{
    if s.len() == 0 {
        assert(cur + s =~= cur);
        assert(split_ws_acc(s, cur) =~~= seq![cur + s]);
    } else {
        assert(!is_ws_char(s[0]));
        assert(no_ws(s.skip(1))) by {
            assert(forall|i: int| 0 <= i < s.len() - 1 ==> s.skip(1)[i] == s[i + 1]);
        }
        lemma_split_acc_no_ws(s.skip(1), cur.push(s[0]));
        assert(cur.push(s[0]) + s.skip(1) =~= cur + s);
    }
}

/// Splitting `a + b` where `a` holds no whitespace first accumulates all of
/// `a`.
proof fn lemma_split_acc_prefix(a: Seq<char>, b: Seq<char>, cur: Seq<char>)
    requires
        no_ws(a),
    ensures
        split_ws_acc(a + b, cur) == split_ws_acc(b, cur + a),
    decreases a.len(),
{
    if a.len() == 0 {
        assert(a + b =~= b);
        assert(cur + a =~= cur);
    } else {
        assert((a + b)[0] == a[0]);
        assert(!is_ws_char(a[0]));
        assert(no_ws(a.skip(1))) by {
            assert(forall|i: int| 0 <= i < a.len() - 1 ==> a.skip(1)[i] == a[i + 1]);
        }
        lemma_split_acc_prefix(a.skip(1), b, cur.push(a[0]));
        assert((a + b).skip(1) =~= a.skip(1) + b);
        assert(cur.push(a[0]) + a.skip(1) =~= cur + a);
    }
}

/// A token is well formed as soon as its pieces are: the name and value are
/// non-empty and hold no colon.
proof fn lemma_token_shape(name: Seq<char>, value: Seq<char>)
    requires
        name.len() > 0,
        value.len() > 0,
        no_colon(name),
        no_colon(value),
    ensures
        token_ok(name + seq![':'] + value),
        token_name(name + seq![':'] + value) == name,
        token_value(name + seq![':'] + value) == value,
{
    let t = name + seq![':'] + value;
    assert(count_colons(t) == 1) by {
        lemma_count_colons_parts(name + seq![':'], value);
        lemma_count_colons_parts(name, seq![':']);
        lemma_count_colons_zero(name);
        lemma_count_colons_zero(value);
        assert(count_colons(seq![':']) == 1) by {
            assert(count_colons(Seq::<char>::empty()) == 0);
            assert(seq![':'].drop_last() =~= Seq::<char>::empty());
            assert(seq![':'].last() == ':');
        }
    }
    let j = name.len() as int;
    assert(t[j] == ':');
    lemma_colon_at_is(t, j);
    assert(t.take(j) =~= name);
    assert(t.skip(j + 1) =~= value);
}

/// A well-formed token parses to exactly its name/value pair: for a name and
/// value that are non-empty, hold no colon, no whitespace, and none of the
/// two full-width characters that normalization rewrites, the grammar accepts
/// `name:value` and yields that one pair.
pub proof fn lemma_single_token_parses(name: Seq<char>, value: Seq<char>)
    requires
        name.len() > 0,
        value.len() > 0,
        no_colon(name),
        no_colon(value),
        no_ws(name),
        no_ws(value),
        no_fullwidth(name),
        no_fullwidth(value),
    ensures
        grammar_ok(name + seq![':'] + value),
        grammar_pairs(name + seq![':'] + value) == seq![(name, value)],
{
    let t = name + seq![':'] + value;
    assert(!is_ws_char(':'));
    assert(no_ws(t)) by {
        assert forall|i: int| 0 <= i < t.len() implies !is_ws_char(#[trigger] t[i]) by {
            if i < name.len() {
                assert(t[i] == name[i]);
            } else if i == name.len() {
                assert(t[i] == ':');
            } else {
                assert(t[i] == value[i - name.len() - 1]);
            }
        }
    }
    assert(no_fullwidth(t)) by {
        assert forall|i: int| 0 <= i < t.len() implies #[trigger] t[i] != '：' && t[i] != '　' by {
            if i < name.len() {
                assert(t[i] == name[i]);
            } else if i == name.len() {
                assert(t[i] == ':');
            } else {
                assert(t[i] == value[i - name.len() - 1]);
            }
        }
    }
    assert(no_colon_space(t)) by {
        assert forall|i: int| 0 <= i < t.len() - 1 implies !(#[trigger] t[i] == ':' && t[i + 1]
            == ' ') by {
            if i < name.len() {
                assert(t[i] == name[i]);
            } else if i == name.len() {
                assert(t[i] == ':');
                assert(t[i + 1] == value[0]);
                assert(!is_ws_char(value[0]));
                assert(is_ws_char(' '));
            } else {
                assert(t[i] == value[i - name.len() - 1]);
            }
        }
    }
    lemma_normalize_identity(t);
    lemma_split_acc_no_ws(t, Seq::<char>::empty());
    assert(Seq::<char>::empty() + t =~= t);
    assert(token_list(t) == seq![t]);
    lemma_token_shape(name, value);
    assert(grammar_pairs(t) =~~= seq![(name, value)]) by {
        assert(grammar_pairs(t)[0] == (token_name(t), token_value(t)));
    }
}

/// One token rebuilt from a pair: `name:value`.
pub open spec fn pair_token(p: (Seq<char>, Seq<char>)) -> Seq<char> {
    p.0 + seq![':'] + p.1
}

/// Tokens joined by single spaces.
pub open spec fn join_tokens(ts: Seq<Seq<char>>) -> Seq<char>
    decreases ts.len(),
{
    if ts.len() == 0 {
        Seq::empty()
    } else if ts.len() == 1 {
        ts[0]
    } else {
        ts[0] + seq![' '] + join_tokens(ts.skip(1))
    }
}

/// The text rebuilt from a cell's pairs: `name:value` tokens joined by single
/// spaces.
pub open spec fn rejoin(ps: Seq<(Seq<char>, Seq<char>)>) -> Seq<char> {
    join_tokens(ps.map_values(|p: (Seq<char>, Seq<char>)| pair_token(p)))
}

/// Every token that splitting yields is non-empty, whitespace-free, and made
/// of characters of the split text or the accumulator.
proof fn lemma_split_acc_wf(s: Seq<char>, cur: Seq<char>)
    requires
        no_fullwidth(s),
        no_fullwidth(cur),
        no_ws(cur),
    ensures
        forall|j: int|
            0 <= j < split_ws_acc(s, cur).len() ==> (#[trigger] split_ws_acc(s, cur)[j]).len() > 0
                && no_ws(split_ws_acc(s, cur)[j]) && no_fullwidth(split_ws_acc(s, cur)[j]),
    decreases s.len(),
{
    let out = split_ws_acc(s, cur);
    if s.len() == 0 {
        if cur.len() > 0 {
            assert(out == seq![cur]);
            assert(out[0] == cur);
        }
    } else {
        assert(no_fullwidth(s.skip(1)) && (forall|i: int|
            0 <= i < s.len() - 1 ==> s.skip(1)[i] == s[i + 1])) by {
            assert(forall|i: int| 0 <= i < s.len() - 1 ==> s.skip(1)[i] == s[i + 1]);
        }
        if is_ws_char(s[0]) {
            lemma_split_acc_wf(s.skip(1), Seq::empty());
            let rest = split_ws_acc(s.skip(1), Seq::empty());
            if cur.len() > 0 {
                assert forall|j: int| 0 <= j < out.len() implies (#[trigger] out[j]).len() > 0
                    && no_ws(out[j]) && no_fullwidth(out[j]) by {
                    if j == 0 {
                        assert(out[0] == cur);
                    } else {
                        assert(out[j] == rest[j - 1]);
                    }
                }
            } else {
                assert forall|j: int| 0 <= j < out.len() implies (#[trigger] out[j]).len() > 0
                    && no_ws(out[j]) && no_fullwidth(out[j]) by {
                    assert(out[j] == rest[j]);
                }
            }
        } else {
            assert(no_fullwidth(cur.push(s[0]))) by {
                assert(forall|i: int| 0 <= i < cur.len() ==> cur.push(s[0])[i] == cur[i]);
            }
            assert(no_ws(cur.push(s[0]))) by {
                assert(forall|i: int| 0 <= i < cur.len() ==> cur.push(s[0])[i] == cur[i]);
            }
            lemma_split_acc_wf(s.skip(1), cur.push(s[0]));
            let rest = split_ws_acc(s.skip(1), cur.push(s[0]));
            assert forall|j: int| 0 <= j < out.len() implies (#[trigger] out[j]).len() > 0 && no_ws(
                out[j],
            ) && no_fullwidth(out[j]) by {
                assert(out[j] == rest[j]);
            }
        }
    }
}

/// The normalized text holds none of the two full-width characters.
proof fn lemma_normalize_no_fullwidth(s: Seq<char>)
    ensures
        no_fullwidth(normalize_text(s)),
{
    let a = fold_colons(s);
    assert(forall|i: int| 0 <= i < a.len() ==> #[trigger] a[i] != '：');
    let b = drop_space_after_colon(a);
    lemma_drop_space_not_char(a, '：');
    let c = fold_spaces(b);
    assert forall|i: int| 0 <= i < c.len() implies #[trigger] c[i] != '：' && c[i] != '　' by {
        assert(c[i] == fold_space_char(b[i]));
        assert(b[i] != '：');
    }
}

/// Dropping spaces after colons introduces no character but the colon.
proof fn lemma_drop_space_not_char(x: Seq<char>, c: char)
    requires
        c != ':',
        forall|i: int| 0 <= i < x.len() ==> #[trigger] x[i] != c,
    ensures
        forall|i: int|
            0 <= i < drop_space_after_colon(x).len() ==> #[trigger] drop_space_after_colon(x)[i]
                != c,
    decreases x.len(),
{
    let out = drop_space_after_colon(x);
    if x.len() > 0 {
        if x.len() >= 2 && x[0] == ':' && x[1] == ' ' {
            assert(forall|i: int| 0 <= i < x.len() - 2 ==> x.skip(2)[i] == x[i + 2]);
            lemma_drop_space_not_char(x.skip(2), c);
            let rest = drop_space_after_colon(x.skip(2));
            assert forall|i: int| 0 <= i < out.len() implies #[trigger] out[i] != c by {
                if i == 0 {
                    assert(out[0] == ':');
                } else {
                    assert(out[i] == rest[i - 1]);
                }
            }
        } else {
            assert(forall|i: int| 0 <= i < x.len() - 1 ==> x.skip(1)[i] == x[i + 1]);
            lemma_drop_space_not_char(x.skip(1), c);
            let rest = drop_space_after_colon(x.skip(1));
            assert forall|i: int| 0 <= i < out.len() implies #[trigger] out[i] != c by {
                if i == 0 {
                    assert(out[0] == x[0]);
                } else {
                    assert(out[i] == rest[i - 1]);
                }
            }
        }
    }
}

/// Concatenation keeps colons away from spaces when both parts do and none
/// arises at the seam.
proof fn lemma_ncs_concat(a: Seq<char>, b: Seq<char>)
    requires
        no_colon_space(a),
        no_colon_space(b),
        a.len() > 0 && b.len() > 0 ==> !(a.last() == ':' && b[0] == ' '),
    ensures
        no_colon_space(a + b),
{
    let t = a + b;
    assert forall|i: int| 0 <= i < t.len() - 1 implies !(#[trigger] t[i] == ':' && t[i + 1] == ' ')
        by {
        if i < a.len() - 1 {
            assert(t[i] == a[i] && t[i + 1] == a[i + 1]);
        } else if i == a.len() - 1 {
            assert(t[i] == a.last() && t[i + 1] == b[0]);
        } else {
            assert(t[i] == b[i - a.len()] && t[i + 1] == b[i + 1 - a.len()]);
        }
    }
}

/// Joining well-formed tokens by single spaces gives a text that splits right
/// back into them and that normalization leaves unchanged.
proof fn lemma_join_tokens(ts: Seq<Seq<char>>)
    requires
        ts.len() > 0,
        forall|i: int| 0 <= i < ts.len() ==> (#[trigger] ts[i]).len() > 0,
        forall|i: int| 0 <= i < ts.len() ==> no_ws(#[trigger] ts[i]),
        forall|i: int| 0 <= i < ts.len() ==> no_fullwidth(#[trigger] ts[i]),
        forall|i: int| 0 <= i < ts.len() ==> no_colon_space(#[trigger] ts[i]),
        forall|i: int| 0 <= i < ts.len() ==> (#[trigger] ts[i]).last() != ':',
    ensures
        join_tokens(ts).len() > 0,
        no_fullwidth(join_tokens(ts)),
        no_colon_space(join_tokens(ts)),
        split_ws(join_tokens(ts)) == ts,
    decreases ts.len(),
{
    let jt = join_tokens(ts);
    if ts.len() == 1 {
        lemma_split_acc_no_ws(ts[0], Seq::empty());
        assert(Seq::<char>::empty() + ts[0] =~= ts[0]);
        assert(split_ws(jt) =~~= ts);
    } else {
        let rest = ts.skip(1);
        assert(forall|i: int| 0 <= i < ts.len() - 1 ==> rest[i] == ts[i + 1]);
        lemma_join_tokens(rest);
        let jr = join_tokens(rest);
        let head = ts[0] + seq![' '];
        assert(jt == head + jr);
        assert(is_ws_char(' '));
        assert(' ' != '：' && ' ' != '　');
        assert(no_fullwidth(jt)) by {
            assert forall|i: int| 0 <= i < jt.len() implies #[trigger] jt[i] != '：' && jt[i]
                != '　' by {
                if i < ts[0].len() {
                    assert(jt[i] == ts[0][i]);
                } else if i == ts[0].len() {
                    assert(jt[i] == ' ');
                } else {
                    assert(jt[i] == jr[i - ts[0].len() - 1]);
                }
            }
        }
        assert(no_colon_space(head)) by {
            lemma_ncs_concat(ts[0], seq![' ']);
        }
        assert(head.last() == ' ');
        lemma_ncs_concat(head, jr);
        assert(no_colon_space(jt));
        // the split
        assert(jt =~= ts[0] + (seq![' '] + jr));
        lemma_split_acc_prefix(ts[0], seq![' '] + jr, Seq::empty());
        assert(Seq::<char>::empty() + ts[0] =~= ts[0]);
        let mid = seq![' '] + jr;
        assert(mid[0] == ' ');
        assert(split_ws_acc(mid, ts[0]) == seq![ts[0]] + split_ws_acc(mid.skip(1), Seq::empty()))
            by {
            assert(ts[0].len() > 0);
        }
        assert(mid.skip(1) =~= jr);
        assert(split_ws(jt) == seq![ts[0]] + split_ws(jr));
        assert(seq![ts[0]] + rest =~~= ts);
    }
}

/// Round trip: the pairs of a parsed cell, rebuilt as `name:value` tokens
/// joined by single spaces, parse again to exactly the same pairs.
pub proof fn lemma_parse_rejoin_roundtrip(s: Seq<char>)
    requires
        grammar_ok(s),
    ensures
        grammar_ok(rejoin(grammar_pairs(s))),
        grammar_pairs(rejoin(grammar_pairs(s))) == grammar_pairs(s),
{
    let ts = token_list(s);
    let ps = grammar_pairs(s);
    let us = ps.map_values(|p: (Seq<char>, Seq<char>)| pair_token(p));
    lemma_normalize_no_fullwidth(s);
    lemma_split_acc_wf(normalize_text(s), Seq::empty());
    assert forall|i: int| 0 <= i < ts.len() implies #[trigger] us[i] == ts[i] by {
        let t = ts[i];
        assert(token_ok(t));
        lemma_colon_exists(t);
        let j = colon_at(t);
        assert(us[i] == token_name(t) + seq![':'] + token_value(t));
        assert(t.take(j) + seq![t[j]] + t.skip(j + 1) =~= t);
    }
    assert(us =~~= ts);
    assert(rejoin(ps) == join_tokens(ts));
    // every token is whitespace-free, full-width-free, keeps colons away from
    // spaces, and does not end in a colon
    assert forall|i: int| 0 <= i < ts.len() implies no_colon_space(#[trigger] ts[i]) && ts[i].last()
        != ':' by {
        let t = ts[i];
        assert(token_ok(t));
        lemma_colon_exists(t);
        let j = colon_at(t);
        lemma_one_colon_unique(t, j);
        assert forall|k: int| 0 <= k < t.len() - 1 implies !(#[trigger] t[k] == ':' && t[k + 1]
            == ' ') by {
            if t[k] == ':' {
                assert(k == j);
                assert(!is_ws_char(t[k + 1]));
                assert(is_ws_char(' '));
            }
        }
        assert(t[t.len() - 1] == t.last());
        if t.last() == ':' {
            assert(t.len() - 1 == j);
            assert(j + 2 <= t.len());
            assert(false);
        }
    }
    lemma_join_tokens(ts);
    let jt = join_tokens(ts);
    lemma_normalize_identity(jt);
    assert(token_list(jt) == ts);
    assert(grammar_ok(jt)) by {
        assert(jt.len() > 0);
        assert(ts.len() > 0);
    }
    assert(grammar_pairs(jt) == ps);
}

} // verus!
