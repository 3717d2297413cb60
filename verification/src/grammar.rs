//! The measurement grammar: a cell of free text is normalized, split on
//! whitespace runs, and every token must be a `name:value` pair with a
//! non-empty name and value around exactly one colon.

use vstd::prelude::*;
use crate::errors::Error;
use crate::text::{
    chars_to_string, normalize_chars, normalize_text, seq_views, split_ws, split_ws_exec,
    str_to_chars, str_views, sub_chars,
};

verus! {

/// One measurement: a non-empty name and a non-empty value.
#[derive(Debug, Clone, PartialEq, Eq)]
pub struct SizeDetail {
    pub name: String,
    pub value: String,
}

/// The measurements of one cell, in their order of appearance.
#[derive(Debug, Clone, PartialEq, Eq)]
pub struct SizeDetails(pub Vec<SizeDetail>);

/// A value with a parser that decides membership in its format.
pub trait MySpecification<Input> where Self: Sized {
    fn parse(input: Input) -> Result<Self, Error>;

    fn is_match(input: Input) -> bool;
}

/// How many colons `t` holds.
pub open spec fn count_colons(t: Seq<char>) -> nat
    decreases t.len(),
{
    if t.len() == 0 {
        0
    } else {
        count_colons(t.drop_last()) + (if t.last() == ':' {
            1nat
        } else {
            0nat
        })
    }
}

/// The position of the colon of a token holding exactly one.
pub open spec fn colon_at(t: Seq<char>) -> int {
    choose|j: int| 0 <= j < t.len() && t[j] == ':'
}

/// A well-formed token: exactly one colon, with at least one character on
/// each side of it.
pub open spec fn token_ok(t: Seq<char>) -> bool {
    &&& count_colons(t) == 1
    &&& 1 <= colon_at(t)
    &&& colon_at(t) + 2 <= t.len()
}

/// The part of a token before its colon.
pub open spec fn token_name(t: Seq<char>) -> Seq<char> {
    t.take(colon_at(t))
}

/// The part of a token after its colon.
pub open spec fn token_value(t: Seq<char>) -> Seq<char> {
    t.skip(colon_at(t) + 1)
}

pub proof fn lemma_count_colons_zero(t: Seq<char>)
    ensures
        (count_colons(t) == 0) <==> (forall|k: int| 0 <= k < t.len() ==> t[k] != ':'),
    decreases t.len(),
{
    if t.len() > 0 {
        lemma_count_colons_zero(t.drop_last());
        assert(forall|k: int| 0 <= k < t.len() - 1 ==> t.drop_last()[k] == t[k]);
        if count_colons(t) == 0 {
            assert forall|k: int| 0 <= k < t.len() implies t[k] != ':' by {
                if k < t.len() - 1 {
                    assert(t.drop_last()[k] != ':');
                }
            }
        }
    }
}

pub proof fn lemma_count_colons_parts(a: Seq<char>, b: Seq<char>)
    ensures
        count_colons(a + b) == count_colons(a) + count_colons(b),
    decreases b.len(),
{
    if b.len() == 0 {
        assert(a + b =~= a);
    } else {
        lemma_count_colons_parts(a, b.drop_last());
        assert((a + b).drop_last() =~= a + b.drop_last());
        assert((a + b).last() == b.last());
    }
}

pub proof fn lemma_one_colon_unique(t: Seq<char>, j: int)
    requires
        count_colons(t) == 1,
        0 <= j < t.len(),
        t[j] == ':',
    ensures
        forall|k: int| 0 <= k < t.len() && t[k] == ':' ==> k == j,
    decreases t.len(),
{
    assert(forall|k: int| 0 <= k < t.len() - 1 ==> t.drop_last()[k] == t[k]);
    if t.last() == ':' {
        lemma_count_colons_zero(t.drop_last());
        assert(j == t.len() - 1);
    } else {
        assert(j < t.len() - 1);
        lemma_one_colon_unique(t.drop_last(), j);
        assert forall|k: int| 0 <= k < t.len() && t[k] == ':' implies k == j by {
            assert(k < t.len() - 1);
            assert(t.drop_last()[k] == ':');
        }
    }
}

/// A token with a colon has one where `colon_at` says.
pub proof fn lemma_colon_exists(t: Seq<char>)
    requires
        count_colons(t) >= 1,
    ensures
        0 <= colon_at(t) < t.len() && t[colon_at(t)] == ':',
    decreases t.len(),
{
    if t.len() > 0 {
        if t.last() == ':' {
            assert(t[t.len() - 1] == ':');
            assert(exists|k: int| 0 <= k < t.len() && t[k] == ':');
        } else {
            lemma_colon_exists(t.drop_last());
            let j = colon_at(t.drop_last());
            assert(t[j] == ':');
            assert(exists|k: int| 0 <= k < t.len() && t[k] == ':');
        }
        let j2 = colon_at(t);
        assert(0 <= j2 < t.len() && t[j2] == ':');
    }
}

/// A token with exactly one colon has its colon at `j` as soon as some colon
/// stands at `j`.
pub proof fn lemma_colon_at_is(t: Seq<char>, j: int)
    requires
        count_colons(t) == 1,
        0 <= j < t.len(),
        t[j] == ':',
    ensures
        colon_at(t) == j,
{
    assert(0 <= j < t.len() && t[j] == ':');
    let j2 = colon_at(t);
    assert(0 <= j2 < t.len() && t[j2] == ':') by {
        assert(exists|k: int| 0 <= k < t.len() && t[k] == ':');
    }
    lemma_one_colon_unique(t, j);
}

/// The tokens of a measurement cell after normalization.
pub open spec fn token_list(s: Seq<char>) -> Seq<Seq<char>> {
    split_ws(normalize_text(s))
}

/// The cell is empty, or nothing but whitespace remains after normalization.
pub open spec fn grammar_empty(s: Seq<char>) -> bool {
    s.len() == 0 || token_list(s).len() == 0
}

/// The cell parses: it has at least one token and every token is well formed.
pub open spec fn grammar_ok(s: Seq<char>) -> bool {
    &&& !grammar_empty(s)
    &&& forall|i: int| 0 <= i < token_list(s).len() ==> token_ok(#[trigger] token_list(s)[i])
}

/// The name/value pairs of the cell, in token order.
pub open spec fn grammar_pairs(s: Seq<char>) -> Seq<(Seq<char>, Seq<char>)> {
    token_list(s).map_values(|t: Seq<char>| (token_name(t), token_value(t)))
}

/// The position of the first ill-formed token of the cell.
pub open spec fn first_bad_token_at(s: Seq<char>) -> int {
    choose|i: int|
        0 <= i < token_list(s).len() && !token_ok(token_list(s)[i]) && (forall|k: int|
            0 <= k < i ==> token_ok(#[trigger] token_list(s)[k]))
}

/// The first ill-formed token of the cell.
pub open spec fn first_bad_token(s: Seq<char>) -> Seq<char> {
    token_list(s)[first_bad_token_at(s)]
}

/// The name/value pairs of a sequence of measurements.
pub open spec fn details_pairs(ds: Seq<SizeDetail>) -> Seq<(Seq<char>, Seq<char>)> {
    ds.map_values(|d: SizeDetail| (d.name@, d.value@))
}

/// The names of a sequence of measurements.
pub open spec fn names_of(ds: Seq<SizeDetail>) -> Seq<Seq<char>> {
    ds.map_values(|d: SizeDetail| d.name@)
}

/// The values of a sequence of measurements.
pub open spec fn values_of(ds: Seq<SizeDetail>) -> Seq<Seq<char>> {
    ds.map_values(|d: SizeDetail| d.value@)
}

/// Parses one already-normalized token into a `name:value` pair.
fn parse_token_chars(t: &Vec<char>) -> (r: Option<SizeDetail>)
    ensures
        match r {
            Some(d) => token_ok(t@) && d.name@ == token_name(t@) && d.value@ == token_value(t@),
            None => !token_ok(t@),
        },
{
    let mut cnt: usize = 0;
    let mut pos: usize = 0;
    let mut i: usize = 0;
    proof {
        assert(t@.take(0) =~= Seq::<char>::empty());
    }
    while i < t.len()
        invariant
            i <= t@.len(),
            cnt <= i,
            cnt == count_colons(t@.take(i as int)),
            cnt >= 1 ==> (pos < i && t@[pos as int] == ':'),
        decreases t@.len() - i,
    {
        proof {
            assert(t@.take(i + 1 as int).drop_last() =~= t@.take(i as int));
            assert(t@.take(i + 1 as int).last() == t@[i as int]);
        }
        if t[i] == ':' {
            if cnt == 0 {
                pos = i;
            }
            cnt = cnt + 1;
        }
        i = i + 1;
    }
    proof {
        assert(t@.take(t@.len() as int) =~= t@);
    }
    if cnt == 1 && pos >= 1 && pos + 1 < t.len() {
        proof {
            lemma_colon_at_is(t@, pos as int);
        }
        let name_chars = sub_chars(t, 0, pos);
        let value_chars = sub_chars(t, pos + 1, t.len());
        proof {
            assert(t@.subrange(0, pos as int) =~= t@.take(pos as int));
            assert(t@.subrange(pos + 1 as int, t@.len() as int) =~= t@.skip(pos + 1 as int));
        }
        Some(SizeDetail { name: chars_to_string(&name_chars), value: chars_to_string(&value_chars) })
    } else {
        proof {
            if cnt == 1 {
                lemma_colon_at_is(t@, pos as int);
            }
        }
        None
    }
}

impl SizeDetail {
    /// Parses a whole cell as a single `name:value` token: the text is
    /// normalized and must then hold exactly one colon with non-empty text on
    /// both sides.
    pub fn parse(input: String) -> (r: Result<SizeDetail, Error>)
        ensures
            match r {
                Ok(d) => input@.len() > 0 && token_ok(normalize_text(input@)) && d.name@
                    == token_name(normalize_text(input@)) && d.value@ == token_value(
                    normalize_text(input@),
                ),
                Err(e) => match e {
                    Error::EmptySizeText => input@.len() == 0,
                    Error::InvalidSizeText { error_line } => input@.len() > 0 && !token_ok(
                        normalize_text(input@),
                    ) && error_line@ == normalize_text(input@),
                    _ => false,
                },
            },
    {
        let chars = str_to_chars(input.as_str());
        if chars.len() == 0 {
            return Err(Error::EmptySizeText);
        }
        let e = normalize_chars(&chars);
        match parse_token_chars(&e) {
            Some(d) => Ok(d),
            None => Err(Error::InvalidSizeText { error_line: chars_to_string(&e) }),
        }
    }
}

impl SizeDetails {
    /// The name/value pairs held, as mathematical sequences.
    pub open spec fn pairs(&self) -> Seq<(Seq<char>, Seq<char>)> {
        details_pairs(self.0@)
    }

    /// The names held, in order.
    pub open spec fn spec_names(&self) -> Seq<Seq<char>> {
        names_of(self.0@)
    }

    /// The values held, in order.
    pub open spec fn spec_values(&self) -> Seq<Seq<char>> {
        values_of(self.0@)
    }

    /// Parses a measurement cell: the text is normalized, split on whitespace
    /// runs, and every token must be a well-formed `name:value` pair. The
    /// pairs keep token order; duplicate names are kept distinct.
    pub fn parse(input: String) -> (r: Result<SizeDetails, Error>)
        ensures
            match r {
                Ok(sd) => grammar_ok(input@) && sd.pairs() == grammar_pairs(input@),
                Err(e) => match e {
                    Error::EmptySizeText => grammar_empty(input@),
                    Error::InvalidSizeText { error_line } => !grammar_empty(input@) && !grammar_ok(
                        input@,
                    ) && error_line@ == first_bad_token(input@),
                    _ => false,
                },
            },
    {
        let chars = str_to_chars(input.as_str());
        if chars.len() == 0 {
            return Err(Error::EmptySizeText);
        }
        let e = normalize_chars(&chars);
        let toks = split_ws_exec(&e);
        if toks.len() == 0 {
            proof {
                assert(token_list(input@).len() == seq_views(toks@).len());
            }
            return Err(Error::EmptySizeText);
        }
        let ghost tl = token_list(input@);
        proof {
            assert(tl == seq_views(toks@));
        }
        let mut out: Vec<SizeDetail> = Vec::new();
        let mut i: usize = 0;
        while i < toks.len()
            invariant
                i <= toks@.len(),
                tl == seq_views(toks@),
                tl == token_list(input@),
                toks@.len() == tl.len(),
                forall|k: int| 0 <= k < i ==> token_ok(#[trigger] tl[k]),
                details_pairs(out@) =~~= grammar_pairs(input@).take(i as int),
            decreases toks@.len() - i,
        {
            proof {
                assert(toks@[i as int]@ == seq_views(toks@)[i as int]);
            }
            match parse_token_chars(&toks[i]) {
                Some(d) => {
                    let ghost prev = out@;
                    let ghost dd = d;
                    out.push(d);
                    proof {
                        assert(out@ == prev.push(dd));
                        assert(details_pairs(prev) == grammar_pairs(input@).take(i as int));
                        assert(details_pairs(prev).len() == prev.len());
                        assert(grammar_pairs(input@).len() == tl.len());
                        assert(prev.len() == i);
                        assert(details_pairs(out@).len() == i + 1);
                        assert(dd.name@ == token_name(tl[i as int]));
                        assert(dd.value@ == token_value(tl[i as int]));
                        assert(details_pairs(out@)[i as int] == (dd.name@, dd.value@));
                        assert(grammar_pairs(input@)[i as int] == (
                            token_name(tl[i as int]),
                            token_value(tl[i as int]),
                        ));
                        assert(details_pairs(out@) =~~= grammar_pairs(input@).take(i + 1 as int));
                    }
                },
                None => {
                    let ghost bad = i as int;
                    proof {
                        assert(0 <= bad < tl.len() && !token_ok(tl[bad]) && (forall|k: int|
                            0 <= k < bad ==> token_ok(#[trigger] tl[k])));
                        let other = first_bad_token_at(input@);
                        assert(0 <= other < tl.len() && !token_ok(tl[other]) && (forall|k: int|
                            0 <= k < other ==> token_ok(#[trigger] tl[k])));
                        assert(other == bad);
                    }
                    return Err(Error::InvalidSizeText { error_line: chars_to_string(&toks[i]) });
                },
            }
            i = i + 1;
        }
        proof {
            assert(grammar_pairs(input@).take(tl.len() as int) =~~= grammar_pairs(input@));
        }
        Ok(SizeDetails(out))
    }

    /// The names of the pairs, in order.
    pub fn names(&self) -> (r: Vec<String>)
        ensures
            str_views(r@) == self.spec_names(),
    {
        let mut out: Vec<String> = Vec::new();
        let mut i: usize = 0;
        while i < self.0.len()
            invariant
                i <= self.0@.len(),
                str_views(out@) =~= self.spec_names().take(i as int),
            decreases self.0@.len() - i,
        {
            let ghost prev = out@;
            out.push(self.0[i].name.clone());
            proof {
                assert(out@ == prev.push(self.0@[i as int].name));
                assert(str_views(prev) == self.spec_names().take(i as int));
                assert(str_views(prev).len() == prev.len());
                assert(self.spec_names().len() == self.0@.len());
                assert(prev.len() == i);
                assert(str_views(out@)[i as int] == self.0@[i as int].name@);
                assert(self.spec_names()[i as int] == self.0@[i as int].name@);
                assert(str_views(out@) =~= self.spec_names().take(i + 1 as int));
            }
            i = i + 1;
        }
        proof {
            assert(self.spec_names().take(self.0@.len() as int) =~= self.spec_names());
        }
        out
    }

    /// The values of the pairs, in order.
    pub fn values(&self) -> (r: Vec<String>)
        ensures
            str_views(r@) == self.spec_values(),
    {
        let mut out: Vec<String> = Vec::new();
        let mut i: usize = 0;
        while i < self.0.len()
            invariant
                i <= self.0@.len(),
                str_views(out@) =~= self.spec_values().take(i as int),
            decreases self.0@.len() - i,
        {
            let ghost prev = out@;
            out.push(self.0[i].value.clone());
            proof {
                assert(out@ == prev.push(self.0@[i as int].value));
                assert(str_views(prev) == self.spec_values().take(i as int));
                assert(str_views(prev).len() == prev.len());
                assert(self.spec_values().len() == self.0@.len());
                assert(prev.len() == i);
                assert(str_views(out@)[i as int] == self.0@[i as int].value@);
                assert(self.spec_values()[i as int] == self.0@[i as int].value@);
                assert(str_views(out@) =~= self.spec_values().take(i + 1 as int));
            }
            i = i + 1;
        }
        proof {
            assert(self.spec_values().take(self.0@.len() as int) =~= self.spec_values());
        }
        out
    }
}

impl MySpecification<String> for SizeDetail {
    fn parse(input: String) -> Result<SizeDetail, Error> {
        SizeDetail::parse(input)
    }

    fn is_match(input: String) -> bool {
        SizeDetail::parse(input).is_ok()
    }
}

impl MySpecification<String> for SizeDetails {
    fn parse(input: String) -> Result<SizeDetails, Error> {
        SizeDetails::parse(input)
    }

    fn is_match(input: String) -> bool {
        SizeDetails::parse(input).is_ok()
    }
}

} // verus!
