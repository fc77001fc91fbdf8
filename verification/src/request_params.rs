use vstd::prelude::*;
use vstd::string::StrSliceExecFns;
use crate::expression::{chars_of, is_digit, all_digits, is_float_literal, float_literal_at};

verus! {

/// `sep` stands in `s` at index `i`.
pub open spec fn occurs_at(s: Seq<char>, sep: Seq<char>, i: int) -> bool {
    0 <= i && i + sep.len() <= s.len() && s.subrange(i, i + sep.len()) == sep
}

/// The first index from `i` on at which `sep` stands in `s`.
pub open spec fn first_from(s: Seq<char>, sep: Seq<char>, i: int) -> Option<int>
    decreases s.len() - i,
{
    if i < 0 || i >= s.len() || i + sep.len() > s.len() {
        None
    } else if occurs_at(s, sep, i) {
        Some(i)
    } else {
        first_from(s, sep, i + 1)
    }
}

/// The pieces of `s` between the occurrences of the non-empty `sep`, found
/// from the left without overlap, as `str::split` gives them.
pub open spec fn split(s: Seq<char>, sep: Seq<char>) -> Seq<Seq<char>>
    decreases s.len(),
{
    if sep.len() == 0 {
        seq![s]
    } else {
        match first_from(s, sep, 0) {
            Some(i) => if 0 <= i && i + sep.len() <= s.len() {
                seq![s.take(i)] + split(s.skip(i + sep.len()), sep)
            } else {
                seq![s]
            },
            None => seq![s],
        }
    }
}

proof fn lemma_first_from_found(s: Seq<char>, sep: Seq<char>, k: int, m: int)
    requires
        0 <= k <= m,
        sep.len() > 0,
        occurs_at(s, sep, m),
        forall|j: int| k <= j < m ==> !#[trigger] occurs_at(s, sep, j),
    ensures
        first_from(s, sep, k) == Some(m),
    decreases m - k,
{
    if k < m {
        lemma_first_from_found(s, sep, k + 1, m);
    }
}

proof fn lemma_first_from_none(s: Seq<char>, sep: Seq<char>, k: int)
    requires
        0 <= k,
        forall|j: int| k <= j && j + sep.len() <= s.len() ==> !#[trigger] occurs_at(s, sep, j),
    ensures
        first_from(s, sep, k) is None,
    decreases s.len() - k,
{
    if k < s.len() && k + sep.len() <= s.len() {
        lemma_first_from_none(s, sep, k + 1);
    }
}

/// Whether `sep` stands in `cs` at index `i`.
fn occurs_at_exec(cs: &Vec<char>, sep: &Vec<char>, i: usize) -> (b: bool)
    requires
        i + sep@.len() <= cs@.len(),
    ensures
        b == occurs_at(cs@, sep@, i as int),
{
    let n = cs.len();
    let mut j: usize = 0;
    while j < sep.len()
        invariant
            n == cs@.len(),
            j <= sep@.len(),
            i + sep@.len() <= cs@.len(),
            forall|k: int| 0 <= k < j ==> cs@[i + k] == sep@[k],
        decreases sep@.len() - j,
    {
        if cs[i + j] != sep[j] {
            assert(cs@.subrange(i as int, i + sep@.len())[j as int] == cs@[i + j]);
            return false;
        }
        j += 1;
    }
    assert(cs@.subrange(i as int, i + sep@.len()) =~= sep@);
    true
}

/// The pieces of `s` between the occurrences of `sep`.
pub fn split_on(s: &str, sep: &Vec<char>) -> (pieces: Vec<String>)
    requires
        sep@.len() > 0,
    ensures
        pieces@.map_values(|p: String| p@) == split(s@, sep@),
{
    let cs = chars_of(s);
    let mut pieces: Vec<String> = Vec::new();
    let mut start: usize = 0;
    let mut i: usize = 0;
    let n = cs.len();
    let m = sep.len();
    assert(s@.skip(0) =~= s@);
    assert(pieces@.map_values(|p: String| p@) + split(s@, sep@) =~= split(s@, sep@));
    loop
        invariant
            cs@ == s@,
            n == cs@.len(),
            m == sep@.len(),
            m > 0,
            start <= i,
            start <= n,
            split(s@, sep@) == pieces@.map_values(|p: String| p@) + split(
                s@.skip(start as int),
                sep@,
            ),
            forall|j: int| start <= j < i ==> !#[trigger] occurs_at(s@, sep@, j),
        decreases n - i, n - start,
    {
        let ghost rest = s@.skip(start as int);
        assert forall|j: int| 0 <= j implies #[trigger] occurs_at(rest, sep@, j) == occurs_at(
            s@,
            sep@,
            start + j,
        ) by {
            if j + m <= rest.len() {
                assert(rest.subrange(j, j + m) =~= s@.subrange(start + j, start + j + m));
            }
        }
        if i > n || n - i < m {
            proof {
                lemma_first_from_none(rest, sep@, 0);
            }
            let piece = s.substring_char(start, n).to_owned();
            pieces.push(piece);
            proof {
                assert(rest =~= s@.subrange(start as int, n as int));
                assert(pieces@.map_values(|p: String| p@) =~= pieces@.drop_last().map_values(
                    |p: String| p@,
                ).push(rest));
            }
            return pieces;
        }
        if occurs_at_exec(&cs, sep, i) {
            proof {
                lemma_first_from_found(rest, sep@, 0, i - start);
                assert(rest.skip(i - start + m) =~= s@.skip(i + m));
                assert(rest.take(i - start) =~= s@.subrange(start as int, i as int));
            }
            let piece = s.substring_char(start, i).to_owned();
            pieces.push(piece);
            proof {
                assert(pieces@.map_values(|p: String| p@) =~= pieces@.drop_last().map_values(
                    |p: String| p@,
                ).push(rest.take(i - start)));
            }
            start = i + m;
            i = start;
        } else {
            i += 1;
        }
    }
}


/// The value of a decimal string of digits.
pub open spec fn digits_value(d: Seq<char>) -> nat
    decreases d.len(),
{
    if d.len() == 0 {
        0
    } else {
        digits_value(d.drop_last()) * 10 + ((d.last() as u32) - 48) as nat
    }
}

/// The number that `str::parse::<usize>` reads from `s`: an optional `+`
/// and at least one decimal digit, of a value that fits in `usize`.
pub open spec fn parse_usize_of(s: Seq<char>) -> Option<usize> {
    let d = if s.len() > 0 && s[0] == '+' { s.skip(1) } else { s };
    if d.len() > 0 && all_digits(d) && digits_value(d) <= usize::MAX {
        Some(digits_value(d) as usize)
    } else {
        None
    }
}

proof fn lemma_digits_value_grows(d: Seq<char>, k: int)
    requires
        0 <= k <= d.len(),
    ensures
        digits_value(d.take(k)) <= digits_value(d),
    decreases d.len(),
{
    if k < d.len() {
        lemma_digits_value_grows(d.drop_last(), k);
        assert(d.drop_last().take(k) =~= d.take(k));
    } else {
        assert(d.take(k) =~= d);
    }
}

/// Reads a `usize` from `s` as `str::parse::<usize>` does.
pub fn parse_usize(s: &str) -> (r: Option<usize>)
    ensures
        r == parse_usize_of(s@),
{
    let cs = chars_of(s);
    let n = cs.len();
    let mut p: usize = 0;
    if n > 0 && cs[0] == '+' {
        p = 1;
    }
    let ghost d = cs@.subrange(p as int, n as int);
    assert(d =~= (if s@.len() > 0 && s@[0] == '+' { s@.skip(1) } else { s@ }));
    if p == n {
        return None;
    }
    let mut v: usize = 0;
    let mut i: usize = p;
    while i < n
        invariant
            cs@ == s@,
            n == cs@.len(),
            p <= i <= n,
            d == cs@.subrange(p as int, n as int),
            d == (if s@.len() > 0 && s@[0] == '+' { s@.skip(1) } else { s@ }),
            d.len() > 0,
            all_digits(d.take(i - p)),
            v == digits_value(d.take(i - p)),
        decreases n - i,
    {
        let c = cs[i];
        assert(d[i - p] == c);
        if !('0' <= c && c <= '9') {
            assert(!is_digit(d[i - p]));
            return None;
        }
        assert(d.take(i - p + 1).drop_last() =~= d.take(i - p));
        assert(all_digits(d.take(i - p + 1))) by {
            assert forall|j: int| 0 <= j < i - p + 1 implies #[trigger] is_digit(
                d.take(i - p + 1)[j],
            ) by {
                if j < i - p {
                    assert(d.take(i - p + 1)[j] == d.take(i - p)[j]);
                }
            }
        }
        let digit = ((c as u32) - 48) as usize;
        assert(d.take(i - p + 1).last() == c);
        assert(digits_value(d.take(i - p + 1)) == v * 10 + digit);
        let next = match v.checked_mul(10) {
            Some(t) => t.checked_add(digit),
            None => None,
        };
        match next {
            Some(t) => {
                v = t;
            },
            None => {
                proof {
                    if all_digits(d) {
                        lemma_digits_value_grows(d, i - p + 1);
                    }
                }
                return None;
            },
        }
        i += 1;
    }
    assert(d.take(i - p) =~= d);
    Some(v)
}


/// The value of the first parameter named `name`.
pub open spec fn lookup(params: Seq<(String, String)>, name: Seq<char>) -> Option<Seq<char>>
    decreases params.len(),
{
    if params.len() == 0 {
        None
    } else if params[0].0@ == name {
        Some(params[0].1@)
    } else {
        lookup(params.drop_first(), name)
    }
}

/// Every parameter of a decoded query with the first of its values.
pub fn first_values(query: &Vec<(String, Vec<String>)>) -> (params: Vec<(String, String)>)
    requires
        forall|i: int| 0 <= i < query@.len() ==> #[trigger] query@[i].1@.len() > 0,
    ensures
        params@.len() == query@.len(),
        forall|i: int|
            0 <= i < query@.len() ==> #[trigger] params@[i].0@ == query@[i].0@ && params@[i].1@
                == query@[i].1@[0]@,
{
    let mut params: Vec<(String, String)> = Vec::new();
    let mut i: usize = 0;
    while i < query.len()
        invariant
            i <= query@.len(),
            params@.len() == i,
            forall|j: int| 0 <= j < query@.len() ==> #[trigger] query@[j].1@.len() > 0,
            forall|j: int|
                0 <= j < i ==> #[trigger] params@[j].0@ == query@[j].0@ && params@[j].1@
                    == query@[j].1@[0]@,
        decreases query@.len() - i,
    {
        let entry = &query[i];
        assert(entry.1@.len() > 0);
        params.push((entry.0.clone(), entry.1[0].clone()));
        i += 1;
    }
    params
}

/// The value of the first parameter named `name`, if there is one.
pub fn param<'a>(params: &'a Vec<(String, String)>, name: &String) -> (r: Option<&'a String>)
    ensures
        match r {
            Some(v) => lookup(params@, name@) == Some(v@),
            None => lookup(params@, name@) is None,
        },
{
    let mut i: usize = 0;
    assert(params@.skip(0) =~= params@);
    while i < params.len()
        invariant
            i <= params@.len(),
            lookup(params@, name@) == lookup(params@.skip(i as int), name@),
        decreases params@.len() - i,
    {
        assert(params@.skip(i as int).drop_first() =~= params@.skip(i + 1));
        assert(params@.skip(i as int)[0] == params@[i as int]);
        if params[i].0 == *name {
            return Some(&params[i].1);
        }
        i += 1;
    }
    None
}

/// The comma-separated values of the parameter named `name`.
pub open spec fn list_param(params: Seq<(String, String)>, name: Seq<char>) -> Option<
    Seq<Seq<char>>,
> {
    match lookup(params, name) {
        Some(v) => Some(split(v, seq![','])),
        None => None,
    }
}

/// The comma-separated values of the parameter named `name`, if there is one.
pub fn query_param_to_vec(name: &String, params: &Vec<(String, String)>) -> (r: Option<Vec<String>>)
    ensures
        match r {
            Some(v) => list_param(params@, name@) == Some(v@.map_values(|p: String| p@)),
            None => list_param(params@, name@) is None,
        },
{
    match param(params, name) {
        Some(v) => {
            let comma = vec![','];
            assert(comma@ =~= seq![',']);
            Some(split_on(v.as_str(), &comma))
        },
        None => None,
    }
}


/// A numeric parameter of a request.
#[derive(Debug, Clone, Copy, PartialEq, Eq, Structural)]
pub enum NumberParam {
    FacetLimit,
    Top,
    Skip,
    Levenshtein,
}

/// Why the parameters of a request do not make a search.
#[derive(Debug, Clone, Copy, PartialEq, Eq, Structural)]
pub enum ParamError {
    /// There is no `query` parameter.
    MissingQuery,
    /// A numeric parameter is not a `usize`.
    InvalidNumber(NumberParam),
    /// A field boost has no `->` between field and boost.
    BoostWithoutArrow,
    /// A field boost's boost is not a number.
    InvalidBoost,
}

/// The numeric parameter named `name`: `Some(None)` when absent, `None`
/// when present but not a `usize`.
pub open spec fn number_param(params: Seq<(String, String)>, name: Seq<char>) -> Option<
    Option<usize>,
> {
    match lookup(params, name) {
        None => Some(None),
        Some(text) => match parse_usize_of(text) {
            Some(v) => Some(Some(v)),
            None => None,
        },
    }
}

fn number_param_exec(params: &Vec<(String, String)>, name: &String) -> (r: Option<Option<usize>>)
    ensures
        r == number_param(params@, name@),
{
    match param(params, name) {
        None => Some(None),
        Some(text) => match parse_usize(text.as_str()) {
            Some(v) => Some(Some(v)),
            None => None,
        },
    }
}

/// A field boost written `field->boost`: the text before the first `->` and
/// the text after it up to any next `->`; the boost must be a number.
pub open spec fn boost_of(el: Seq<char>) -> Result<(Seq<char>, Seq<char>), ParamError> {
    let parts = split(el, seq!['-', '>']);
    if parts.len() < 2 {
        Err(ParamError::BoostWithoutArrow)
    } else if !is_float_literal(parts[1]) {
        Err(ParamError::InvalidBoost)
    } else {
        Ok((parts[0], parts[1]))
    }
}

/// The field boosts of `els`, in order; the first bad one decides the error.
pub open spec fn boosts_of(els: Seq<Seq<char>>) -> Result<Seq<(Seq<char>, Seq<char>)>, ParamError>
    decreases els.len(),
{
    if els.len() == 0 {
        Ok(Seq::empty())
    } else {
        match boost_of(els[0]) {
            Err(e) => Err(e),
            Ok(b) => match boosts_of(els.drop_first()) {
                Ok(bs) => Ok(seq![b] + bs),
                Err(e) => Err(e),
            },
        }
    }
}

/// The views of strings.
pub open spec fn strings_view(v: Seq<String>) -> Seq<Seq<char>> {
    v.map_values(|p: String| p@)
}

/// The views of string pairs.
pub open spec fn pairs_view(v: Seq<(String, String)>) -> Seq<(Seq<char>, Seq<char>)> {
    v.map_values(|p: (String, String)| (p.0@, p.1@))
}

fn boosts_exec(els: &Vec<String>) -> (r: Result<Vec<(String, String)>, ParamError>)
    ensures
        match r {
            Ok(v) => boosts_of(strings_view(els@)) == Ok::<_, ParamError>(pairs_view(v@)),
            Err(e) => boosts_of(strings_view(els@)) == Err::<Seq<(Seq<char>, Seq<char>)>, _>(e),
        },
{
    let arrow = vec!['-', '>'];
    assert(arrow@ =~= seq!['-', '>']);
    let mut out: Vec<(String, String)> = Vec::new();
    let mut i: usize = 0;
    assert(strings_view(els@).skip(0) =~= strings_view(els@));
    proof {
        match boosts_of(strings_view(els@)) {
            Ok(bs) => {
                assert(pairs_view(out@) + bs =~= bs);
            },
            Err(e) => {},
        }
    }
    while i < els.len()
        invariant
            i <= els@.len(),
            arrow@ == seq!['-', '>'],
            boosts_of(strings_view(els@)) == match boosts_of(strings_view(els@).skip(i as int)) {
                Ok(bs) => Ok(pairs_view(out@) + bs),
                Err(e) => Err(e),
            },
        decreases els@.len() - i,
    {
        let ghost rest = strings_view(els@).skip(i as int);
        assert(rest[0] == els@[i as int]@);
        assert(rest.drop_first() =~= strings_view(els@).skip(i + 1));
        let parts = split_on(els[i].as_str(), &arrow);
        assert(parts@.map_values(|p: String| p@) == split(els@[i as int]@, seq!['-', '>']));
        if parts.len() < 2 {
            return Err(ParamError::BoostWithoutArrow);
        }
        assert(parts@[1]@ == split(els@[i as int]@, seq!['-', '>'])[1]);
        assert(parts@[0]@ == split(els@[i as int]@, seq!['-', '>'])[0]);
        let boost_chars = chars_of(parts[1].as_str());
        assert(boost_chars@.subrange(0, boost_chars@.len() as int) =~= boost_chars@);
        if !float_literal_at(&boost_chars, 0, boost_chars.len()) {
            return Err(ParamError::InvalidBoost);
        }
        let pair = (parts[0].clone(), parts[1].clone());
        assert(boost_of(rest[0]) == Ok::<_, ParamError>((pair.0@, pair.1@)));
        let ghost old_out = out@;
        out.push(pair);
        assert(out@.drop_last() =~= old_out);
        proof {
            assert(pairs_view(out@) =~= pairs_view(out@.drop_last()).push((pair.0@, pair.1@)));
            assert(rest.len() > 0);
            assert(boosts_of(rest) == match boosts_of(rest.drop_first()) {
                Ok(bs) => Ok(seq![(pair.0@, pair.1@)] + bs),
                Err(e) => Err(e),
            });
            match boosts_of(strings_view(els@).skip(i + 1)) {
                Ok(bs) => {
                    assert(pairs_view(out@) + bs =~= pairs_view(out@.drop_last()) + (seq![
                        (pair.0@, pair.1@),
                    ] + bs));
                },
                Err(e) => {},
            }
        }
        i += 1;
    }
    assert(strings_view(els@).skip(i as int) =~= Seq::<Seq<char>>::empty());
    assert(pairs_view(out@) + Seq::<(Seq<char>, Seq<char>)>::empty() =~= pairs_view(out@));
    Ok(out)
}


/// The boost of each field: a later boost for a field replaces an earlier one.
pub open spec fn boost_map(pairs: Seq<(Seq<char>, Seq<char>)>) -> Map<Seq<char>, Seq<char>>
    decreases pairs.len(),
{
    if pairs.len() == 0 {
        Map::empty()
    } else {
        boost_map(pairs.drop_last()).insert(pairs.last().0, pairs.last().1)
    }
}

/// No two pairs name the same field.
pub open spec fn distinct_fields(pairs: Seq<(Seq<char>, Seq<char>)>) -> bool {
    forall|i: int, j: int| 0 <= i < j < pairs.len() ==> #[trigger] pairs[i].0 != #[trigger] pairs[j].0
}

proof fn lemma_boost_map_keys(pairs: Seq<(Seq<char>, Seq<char>)>, k: Seq<char>)
    ensures
        boost_map(pairs).contains_key(k) <==> exists|i: int|
            0 <= i < pairs.len() && #[trigger] pairs[i].0 == k,
    decreases pairs.len(),
{
    if pairs.len() > 0 {
        let init = pairs.drop_last();
        lemma_boost_map_keys(init, k);
        if boost_map(init).contains_key(k) {
            let i = choose|i: int| 0 <= i < init.len() && #[trigger] init[i].0 == k;
            assert(pairs[i] == init[i]);
        }
        if exists|i: int| 0 <= i < pairs.len() && #[trigger] pairs[i].0 == k {
            let i = choose|i: int| 0 <= i < pairs.len() && #[trigger] pairs[i].0 == k;
            if i < pairs.len() - 1 {
                assert(init[i] == pairs[i]);
            }
        }
    }
}

proof fn lemma_boost_map_update(pairs: Seq<(Seq<char>, Seq<char>)>, i: int, p: (Seq<char>, Seq<char>))
    requires
        distinct_fields(pairs),
        0 <= i < pairs.len(),
        pairs[i].0 == p.0,
    ensures
        boost_map(pairs.update(i, p)) == boost_map(pairs).insert(p.0, p.1),
    decreases pairs.len(),
{
    let updated = pairs.update(i, p);
    let init = pairs.drop_last();
    if i == pairs.len() - 1 {
        assert(updated.drop_last() =~= init);
        assert forall|k: Seq<char>| #[trigger] boost_map(init).contains_key(k) implies k != p.0 by {
            lemma_boost_map_keys(init, k);
            let j = choose|j: int| 0 <= j < init.len() && #[trigger] init[j].0 == k;
            assert(init[j] == pairs[j]);
        }
        assert(boost_map(updated) =~= boost_map(pairs).insert(p.0, p.1));
    } else {
        assert(updated.drop_last() =~= init.update(i, p));
        assert(init[i] == pairs[i]);
        assert(distinct_fields(init)) by {
            assert forall|a: int, b: int| 0 <= a < b < init.len() implies #[trigger] init[a].0
                != #[trigger] init[b].0 by {
                assert(init[a] == pairs[a] && init[b] == pairs[b]);
            }
        }
        lemma_boost_map_update(init, i, p);
        assert(pairs.last().0 != p.0) by {
            assert(pairs[pairs.len() - 1] == pairs.last());
        }
        assert(boost_map(updated) =~= boost_map(pairs).insert(p.0, p.1));
    }
}

/// Where the pair for `field` stands, if there is one.
fn field_position(pairs: &Vec<(String, String)>, field: &String) -> (r: Option<usize>)
    ensures
        match r {
            Some(j) => j < pairs@.len() && pairs@[j as int].0@ == field@,
            None => forall|k: int| 0 <= k < pairs@.len() ==> #[trigger] pairs@[k].0@ != field@,
        },
{
    let mut j: usize = 0;
    while j < pairs.len()
        invariant
            j <= pairs@.len(),
            forall|k: int| 0 <= k < j ==> #[trigger] pairs@[k].0@ != field@,
        decreases pairs@.len() - j,
    {
        if pairs[j].0 == *field {
            return Some(j);
        }
        j += 1;
    }
    None
}

/// The boosts of `raw` with one pair per field, each field keeping its last
/// boost and the place where it first came.
fn last_boost_per_field(raw: &Vec<(String, String)>) -> (out: Vec<(String, String)>)
    ensures
        distinct_fields(pairs_view(out@)),
        boost_map(pairs_view(out@)) == boost_map(pairs_view(raw@)),
{
    let mut out: Vec<(String, String)> = Vec::new();
    let mut i: usize = 0;
    while i < raw.len()
        invariant
            i <= raw@.len(),
            distinct_fields(pairs_view(out@)),
            boost_map(pairs_view(out@)) == boost_map(pairs_view(raw@).take(i as int)),
        decreases raw@.len() - i,
    {
        let pair = (raw[i].0.clone(), raw[i].1.clone());
        let ghost pv = (pair.0@, pair.1@);
        assert(pairs_view(raw@).take(i + 1).drop_last() =~= pairs_view(raw@).take(i as int));
        assert(pairs_view(raw@).take(i + 1).last() == pv);
        let ghost old_out = pairs_view(out@);
        let pos = field_position(&out, &pair.0);
        if let Some(j) = pos {
            proof {
                assert(old_out[j as int].0 == out@[j as int].0@);
                lemma_boost_map_update(old_out, j as int, pv);
            }
            out.set(j, pair);
            assert(pairs_view(out@) =~= old_out.update(j as int, pv));
            assert(distinct_fields(pairs_view(out@))) by {
                assert forall|a: int, b: int|
                    0 <= a < b < pairs_view(out@).len() implies #[trigger] pairs_view(out@)[a].0
                    != #[trigger] pairs_view(out@)[b].0 by {
                    assert(old_out[a].0 != old_out[b].0);
                    assert(old_out.update(j as int, pv)[a].0 == old_out[a].0);
                    assert(old_out.update(j as int, pv)[b].0 == old_out[b].0);
                }
            }
        } else {
            assert forall|k: int| 0 <= k < old_out.len() implies #[trigger] old_out[k].0 != pv.0 by {
                assert(old_out[k].0 == out@[k].0@);
            }
            out.push(pair);
            assert(pairs_view(out@) =~= old_out.push(pv));
            assert(pairs_view(out@).drop_last() =~= old_out);
            assert(distinct_fields(pairs_view(out@))) by {
                assert forall|a: int, b: int|
                    0 <= a < b < pairs_view(out@).len() implies #[trigger] pairs_view(out@)[a].0
                    != #[trigger] pairs_view(out@)[b].0 by {
                    if b < old_out.len() {
                        assert(old_out[a].0 != old_out[b].0);
                    } else {
                        assert(pairs_view(out@)[a] == old_out[a]);
                    }
                }
            }
        }
        i += 1;
    }
    assert(pairs_view(raw@).take(i as int) =~= pairs_view(raw@));
    out
}

/// The parameters of a search request read from its query string.
#[derive(Debug)]
pub struct SearchParams {
    pub query: String,
    pub top: Option<usize>,
    pub skip: Option<usize>,
    pub operator: Option<String>,
    pub levenshtein: Option<usize>,
    pub facetlimit: Option<usize>,
    pub facets: Option<Vec<String>>,
    pub fields: Option<Vec<String>>,
    /// Each boosted field once, with the last boost given for it.
    pub boost_fields: Vec<(String, String)>,
}

/// The parameters of a search request, texts by their characters.
pub struct SearchParamsModel {
    pub query: Seq<char>,
    pub top: Option<usize>,
    pub skip: Option<usize>,
    pub operator: Option<Seq<char>>,
    pub levenshtein: Option<usize>,
    pub facetlimit: Option<usize>,
    pub facets: Option<Seq<Seq<char>>>,
    pub fields: Option<Seq<Seq<char>>>,
    pub boost_fields: Map<Seq<char>, Seq<char>>,
}

/// The views of an optional list of strings.
pub open spec fn opt_strings_view(v: Option<Vec<String>>) -> Option<Seq<Seq<char>>> {
    match v {
        Some(v) => Some(strings_view(v@)),
        None => None,
    }
}

/// The view of an optional string.
pub open spec fn opt_string_view(v: Option<String>) -> Option<Seq<char>> {
    match v {
        Some(v) => Some(v@),
        None => None,
    }
}

impl View for SearchParams {
    type V = SearchParamsModel;

    open spec fn view(&self) -> SearchParamsModel {
        SearchParamsModel {
            query: self.query@,
            top: self.top,
            skip: self.skip,
            operator: opt_string_view(self.operator),
            levenshtein: self.levenshtein,
            facetlimit: self.facetlimit,
            facets: opt_strings_view(self.facets),
            fields: opt_strings_view(self.fields),
            boost_fields: boost_map(pairs_view(self.boost_fields@)),
        }
    }
}

/// The search that a query string asks for, read as the search handler
/// reads it: `query` must be there; then `facetlimit`, the field boosts,
/// `top`, `skip` and `levenshtein` are read in that order, and the first bad
/// one decides the error.
pub open spec fn search_params_of(params: Seq<(String, String)>) -> Result<
    SearchParamsModel,
    ParamError,
> {
    match lookup(params, "query"@) {
        None => Err(ParamError::MissingQuery),
        Some(query) => match number_param(params, "facetlimit"@) {
            None => Err(ParamError::InvalidNumber(NumberParam::FacetLimit)),
            Some(facetlimit) => match (match list_param(params, "boost_fields"@) {
                None => Ok(Seq::empty()),
                Some(els) => boosts_of(els),
            }) {
                Err(e) => Err(e),
                Ok(boost_fields) => match number_param(params, "top"@) {
                    None => Err(ParamError::InvalidNumber(NumberParam::Top)),
                    Some(top) => match number_param(params, "skip"@) {
                        None => Err(ParamError::InvalidNumber(NumberParam::Skip)),
                        Some(skip) => match number_param(params, "levenshtein"@) {
                            None => Err(ParamError::InvalidNumber(NumberParam::Levenshtein)),
                            Some(levenshtein) => Ok(
                                SearchParamsModel {
                                    query,
                                    top,
                                    skip,
                                    operator: lookup(params, "operator"@),
                                    levenshtein,
                                    facetlimit,
                                    facets: list_param(params, "facets"@),
                                    fields: list_param(params, "fields"@),
                                    boost_fields: boost_map(boost_fields),
                                },
                            ),
                        },
                    },
                },
            },
        },
    }
}

fn name(text: &str) -> (r: String)
    ensures
        r@ == text@,
{
    text.to_owned()
}

/// Reads the parameters of a search request.
pub fn search_params(params: &Vec<(String, String)>) -> (r: Result<SearchParams, ParamError>)
    ensures
        match r {
            Ok(p) => search_params_of(params@) == Ok::<_, ParamError>(p@),
            Err(e) => search_params_of(params@) == Err::<SearchParamsModel, _>(e),
        },
        r matches Ok(p) ==> distinct_fields(pairs_view(p.boost_fields@)),
{
    let query = match param(params, &name("query")) {
        None => {
            return Err(ParamError::MissingQuery);
        },
        Some(q) => q.clone(),
    };
    let facetlimit = match number_param_exec(params, &name("facetlimit")) {
        None => {
            return Err(ParamError::InvalidNumber(NumberParam::FacetLimit));
        },
        Some(v) => v,
    };
    let facets = query_param_to_vec(&name("facets"), params);
    let fields = query_param_to_vec(&name("fields"), params);
    let raw_boosts = match query_param_to_vec(&name("boost_fields"), params) {
        None => Vec::new(),
        Some(els) => {
            assert(els@.map_values(|p: String| p@) == strings_view(els@));
            match boosts_exec(&els) {
                Ok(v) => v,
                Err(e) => {
                    return Err(e);
                },
            }
        },
    };
    proof {
        if list_param(params@, "boost_fields"@) is None {
            assert(pairs_view(raw_boosts@) =~= Seq::<(Seq<char>, Seq<char>)>::empty());
        }
    }
    let boost_fields = last_boost_per_field(&raw_boosts);
    let top = match number_param_exec(params, &name("top")) {
        None => {
            return Err(ParamError::InvalidNumber(NumberParam::Top));
        },
        Some(v) => v,
    };
    let skip = match number_param_exec(params, &name("skip")) {
        None => {
            return Err(ParamError::InvalidNumber(NumberParam::Skip));
        },
        Some(v) => v,
    };
    let operator = match param(params, &name("operator")) {
        None => None,
        Some(o) => Some(o.clone()),
    };
    let levenshtein = match number_param_exec(params, &name("levenshtein")) {
        None => {
            return Err(ParamError::InvalidNumber(NumberParam::Levenshtein));
        },
        Some(v) => v,
    };
    let r = SearchParams {
        query,
        top,
        skip,
        operator,
        levenshtein,
        facetlimit,
        facets,
        fields,
        boost_fields,
    };
    proof {
        assert(opt_strings_view(r.facets) == list_param(params@, "facets"@));
        assert(opt_strings_view(r.fields) == list_param(params@, "fields"@));
    }
    Ok(r)
}


/// The parameters of a suggest request read from its query string.
#[derive(Debug)]
pub struct SuggestParams {
    pub query: String,
    pub top: Option<usize>,
    pub skip: Option<usize>,
    pub levenshtein: Option<usize>,
    pub fields: Option<Vec<String>>,
}

/// The parameters of a suggest request, texts by their characters.
pub struct SuggestParamsModel {
    pub query: Seq<char>,
    pub top: Option<usize>,
    pub skip: Option<usize>,
    pub levenshtein: Option<usize>,
    pub fields: Option<Seq<Seq<char>>>,
}

impl View for SuggestParams {
    type V = SuggestParamsModel;

    open spec fn view(&self) -> SuggestParamsModel {
        SuggestParamsModel {
            query: self.query@,
            top: self.top,
            skip: self.skip,
            levenshtein: self.levenshtein,
            fields: opt_strings_view(self.fields),
        }
    }
}

/// The suggestion that a query string asks for, read as the suggest handler
/// reads it: `query` must be there; then `top`, `skip` and `levenshtein`
/// are read in that order, and the first bad one decides the error.
pub open spec fn suggest_params_of(params: Seq<(String, String)>) -> Result<
    SuggestParamsModel,
    ParamError,
> {
    match lookup(params, "query"@) {
        None => Err(ParamError::MissingQuery),
        Some(query) => match number_param(params, "top"@) {
            None => Err(ParamError::InvalidNumber(NumberParam::Top)),
            Some(top) => match number_param(params, "skip"@) {
                None => Err(ParamError::InvalidNumber(NumberParam::Skip)),
                Some(skip) => match number_param(params, "levenshtein"@) {
                    None => Err(ParamError::InvalidNumber(NumberParam::Levenshtein)),
                    Some(levenshtein) => Ok(
                        SuggestParamsModel {
                            query,
                            top,
                            skip,
                            levenshtein,
                            fields: list_param(params, "fields"@),
                        },
                    ),
                },
            },
        },
    }
}

/// Reads the parameters of a suggest request.
pub fn suggest_params(params: &Vec<(String, String)>) -> (r: Result<SuggestParams, ParamError>)
    ensures
        match r {
            Ok(p) => suggest_params_of(params@) == Ok::<_, ParamError>(p@),
            Err(e) => suggest_params_of(params@) == Err::<SuggestParamsModel, _>(e),
        },
{
    let query = match param(params, &name("query")) {
        None => {
            return Err(ParamError::MissingQuery);
        },
        Some(q) => q.clone(),
    };
    let fields = query_param_to_vec(&name("fields"), params);
    let top = match number_param_exec(params, &name("top")) {
        None => {
            return Err(ParamError::InvalidNumber(NumberParam::Top));
        },
        Some(v) => v,
    };
    let skip = match number_param_exec(params, &name("skip")) {
        None => {
            return Err(ParamError::InvalidNumber(NumberParam::Skip));
        },
        Some(v) => v,
    };
    let levenshtein = match number_param_exec(params, &name("levenshtein")) {
        None => {
            return Err(ParamError::InvalidNumber(NumberParam::Levenshtein));
        },
        Some(v) => v,
    };
    let r = SuggestParams { query, top, skip, levenshtein, fields };
    proof {
        assert(opt_strings_view(r.fields) == list_param(params@, "fields"@));
    }
    Ok(r)
}

/// Whether the request asks for a flame graph: it has a `flame` parameter.
pub fn enable_flame(params: &Vec<(String, String)>) -> (b: bool)
    ensures
        b == lookup(params@, "flame"@) is Some,
{
    param(params, &name("flame")).is_some()
}

/// Why an upload is refused.
#[derive(Debug, Clone, Copy, PartialEq, Eq, Structural)]
pub enum UploadError {
    /// The upload has this many fields instead of one.
    FieldCount(usize),
    /// The upload's one field does not hold exactly one file.
    FileCount,
}

/// Checks an upload by the number of files in each of its fields: there
/// must be one field, holding one file.
pub fn check_upload(files_per_field: &Vec<usize>) -> (r: Result<(), UploadError>)
    ensures
        files_per_field@.len() != 1 ==> r == Err::<(), _>(
            UploadError::FieldCount(files_per_field@.len() as usize),
        ),
        files_per_field@.len() == 1 && files_per_field@[0] != 1 ==> r == Err::<(), _>(
            UploadError::FileCount,
        ),
        files_per_field@.len() == 1 && files_per_field@[0] == 1 ==> r is Ok,
{
    if files_per_field.len() != 1 {
        Err(UploadError::FieldCount(files_per_field.len()))
    } else if files_per_field[0] != 1 {
        Err(UploadError::FileCount)
    } else {
        Ok(())
    }
}

/// The content types a data upload may have: a URL-encoded form or a
/// multipart form.
pub open spec fn upload_type_accepted(top: Seq<char>, sub: Seq<char>) -> bool {
    ||| top == "application"@ && sub == "x-www-form-urlencoded"@
    ||| top == "multipart"@ && sub == "form-data"@
}

/// Whether a data upload with content type `top/sub` is accepted.
pub fn accepts_upload_type(top: &String, sub: &String) -> (b: bool)
    ensures
        b == upload_type_accepted(top@, sub@),
{
    (*top == name("application") && *sub == name("x-www-form-urlencoded")) || (*top == name(
        "multipart",
    ) && *sub == name("form-data"))
}


/// The pieces joined again, `sep` between each two.
pub open spec fn join(pieces: Seq<Seq<char>>, sep: Seq<char>) -> Seq<char>
    decreases pieces.len(),
{
    if pieces.len() == 0 {
        Seq::empty()
    } else if pieces.len() == 1 {
        pieces[0]
    } else {
        pieces[0] + sep + join(pieces.drop_first(), sep)
    }
}

proof fn lemma_first_from_facts(s: Seq<char>, sep: Seq<char>, k: int)
    requires
        0 <= k,
        sep.len() > 0,
    ensures
        match first_from(s, sep, k) {
            Some(i) => k <= i && occurs_at(s, sep, i) && forall|j: int|
                k <= j < i ==> !#[trigger] occurs_at(s, sep, j),
            None => forall|j: int| k <= j ==> !#[trigger] occurs_at(s, sep, j),
        },
    decreases s.len() - k,
{
    if k < s.len() && k + sep.len() <= s.len() && !occurs_at(s, sep, k) {
        lemma_first_from_facts(s, sep, k + 1);
    }
}

/// Splitting loses nothing and leaves no separator inside a piece: there is
/// at least one piece, the pieces joined with `sep` give back `s`, and `sep`
/// stands in none of them.
pub proof fn lemma_split_pieces(s: Seq<char>, sep: Seq<char>)
    requires
        sep.len() > 0,
    ensures
        split(s, sep).len() >= 1,
        join(split(s, sep), sep) == s,
        forall|k: int, j: int|
            0 <= k < split(s, sep).len() ==> !#[trigger] occurs_at(split(s, sep)[k], sep, j),
    decreases s.len(),
{
    lemma_first_from_facts(s, sep, 0);
    match first_from(s, sep, 0) {
        Some(i) => {
            let rest = s.skip(i + sep.len());
            lemma_split_pieces(rest, sep);
            let tail = split(rest, sep);
            let pieces = split(s, sep);
            assert(pieces == seq![s.take(i)] + tail);
            assert(pieces.drop_first() =~= tail);
            assert(s.subrange(i, i + sep.len()) == sep);
            assert(s =~= s.take(i) + sep + rest);
            assert forall|k: int, j: int| 0 <= k < pieces.len() implies !#[trigger] occurs_at(
                pieces[k],
                sep,
                j,
            ) by {
                if k == 0 {
                    if occurs_at(s.take(i), sep, j) {
                        assert(s.take(i).subrange(j, j + sep.len()) =~= s.subrange(
                            j,
                            j + sep.len(),
                        ));
                        assert(occurs_at(s, sep, j));
                    }
                } else {
                    assert(pieces[k] == tail[k - 1]);
                }
            }
        },
        None => {
            let pieces = split(s, sep);
            assert(pieces == seq![s]);
            assert forall|k: int, j: int| 0 <= k < pieces.len() implies !#[trigger] occurs_at(
                pieces[k],
                sep,
                j,
            ) by {
                assert(pieces[k] == s);
                if j < 0 {
                } else {
                    assert(!occurs_at(s, sep, j));
                }
            }
        },
    }
}

/// `i` is the first parameter named `name`.
pub open spec fn first_named(params: Seq<(String, String)>, name: Seq<char>, i: int) -> bool {
    &&& 0 <= i < params.len()
    &&& params[i].0@ == name
    &&& forall|j: int| 0 <= j < i ==> #[trigger] params[j].0@ != name
}

/// No parameter is named `name`.
pub open spec fn unnamed(params: Seq<(String, String)>, name: Seq<char>) -> bool {
    forall|j: int| 0 <= j < params.len() ==> #[trigger] params[j].0@ != name
}

/// A parameter is looked up by its name: the first parameter of that name
/// gives its value, and there is none when no parameter has that name.
pub proof fn lemma_lookup_first(params: Seq<(String, String)>, name: Seq<char>)
    ensures
        unnamed(params, name) ==> lookup(params, name) is None,
        forall|i: int| #[trigger]
            first_named(params, name, i) ==> lookup(params, name) == Some(params[i].1@),
    decreases params.len(),
{
    if params.len() > 0 {
        let tail = params.drop_first();
        lemma_lookup_first(tail, name);
        if unnamed(params, name) {
            assert(params[0].0@ != name);
            assert forall|j: int| 0 <= j < tail.len() implies #[trigger] tail[j].0@ != name by {
                assert(tail[j] == params[j + 1]);
            }
        }
        assert forall|i: int| #[trigger] first_named(params, name, i) implies lookup(params, name)
            == Some(params[i].1@) by {
            if i > 0 {
                assert(params[0].0@ != name);
                assert(first_named(tail, name, i - 1)) by {
                    assert(tail[i - 1] == params[i]);
                    assert forall|j: int| 0 <= j < i - 1 implies #[trigger] tail[j].0@ != name by {
                        assert(tail[j] == params[j + 1]);
                    }
                }
            }
        }
    }
}

/// A text field holds the value of the first parameter of its name, and is
/// absent when no parameter has that name.
pub open spec fn text_field_read(
    params: Seq<(String, String)>,
    name: Seq<char>,
    field: Option<Seq<char>>,
) -> bool {
    &&& unnamed(params, name) ==> field is None
    &&& forall|i: int| #[trigger] first_named(params, name, i) ==> field == Some(params[i].1@)
}

/// A number field holds the number that the first parameter of its name
/// reads as, and is absent when no parameter has that name.
pub open spec fn number_field_read(
    params: Seq<(String, String)>,
    name: Seq<char>,
    field: Option<usize>,
) -> bool {
    &&& unnamed(params, name) ==> field is None
    &&& forall|i: int| #[trigger]
        first_named(params, name, i) ==> field == parse_usize_of(params[i].1@)
}

/// `pieces` are `text` cut at its commas: at least one piece, which joined
/// with commas give `text`, and none of which holds a comma.
pub open spec fn comma_pieces(pieces: Seq<Seq<char>>, text: Seq<char>) -> bool {
    &&& pieces.len() >= 1
    &&& join(pieces, seq![',']) == text
    &&& forall|k: int| 0 <= k < pieces.len() ==> !(#[trigger] pieces[k]).contains(',')
}

/// A list field holds the first parameter of its name cut at its commas, and
/// is absent when no parameter has that name.
pub open spec fn list_field_read(
    params: Seq<(String, String)>,
    name: Seq<char>,
    field: Option<Seq<Seq<char>>>,
) -> bool {
    &&& unnamed(params, name) ==> field is None
    &&& forall|i: int| #[trigger]
        first_named(params, name, i) ==> (field is Some && comma_pieces(field->0, params[i].1@))
}

/// A list parameter is the first parameter of its name cut at its commas.
pub proof fn lemma_list_param_read(params: Seq<(String, String)>, name: Seq<char>)
    ensures
        list_field_read(params, name, list_param(params, name)),
{
    lemma_lookup_first(params, name);
    assert forall|i: int| #[trigger] first_named(params, name, i) implies (list_param(
        params,
        name,
    ) is Some && comma_pieces(list_param(params, name)->0, params[i].1@)) by {
        let v = params[i].1@;
        lemma_split_pieces(v, seq![',']);
        let pieces = split(v, seq![',']);
        assert forall|k: int| 0 <= k < pieces.len() implies !(#[trigger] pieces[k]).contains(
            ',',
        ) by {
            if pieces[k].contains(',') {
                let j = choose|j: int| 0 <= j < pieces[k].len() && pieces[k][j] == ',';
                assert(pieces[k].subrange(j, j + 1) =~= seq![',']);
                assert(occurs_at(pieces[k], seq![','], j));
            }
        }
    }
}

/// Each field of a search request holds the parameter of its own name:
/// `query` and `operator` their text, `top`, `skip`, `levenshtein` and
/// `facetlimit` the numbers they read as, `facets` and `fields` their
/// comma-separated pieces; a request without `query` is refused as such.
pub proof fn lemma_search_fields_by_name(params: Seq<(String, String)>)
    ensures
        unnamed(params, "query"@) ==> search_params_of(params) == Err::<SearchParamsModel, _>(
            ParamError::MissingQuery,
        ),
        search_params_of(params) matches Ok(m) ==> {
            &&& text_field_read(params, "query"@, Some(m.query))
            &&& text_field_read(params, "operator"@, m.operator)
            &&& number_field_read(params, "top"@, m.top)
            &&& number_field_read(params, "skip"@, m.skip)
            &&& number_field_read(params, "levenshtein"@, m.levenshtein)
            &&& number_field_read(params, "facetlimit"@, m.facetlimit)
            &&& list_field_read(params, "facets"@, m.facets)
            &&& list_field_read(params, "fields"@, m.fields)
        },
{
    lemma_lookup_first(params, "query"@);
    lemma_lookup_first(params, "operator"@);
    lemma_lookup_first(params, "top"@);
    lemma_lookup_first(params, "skip"@);
    lemma_lookup_first(params, "levenshtein"@);
    lemma_lookup_first(params, "facetlimit"@);
    lemma_list_param_read(params, "facets"@);
    lemma_list_param_read(params, "fields"@);
}

/// Each field of a suggest request holds the parameter of its own name:
/// `query` its text, `top`, `skip` and `levenshtein` the numbers they read
/// as, `fields` its comma-separated pieces; a request without `query` is
/// refused as such.
pub proof fn lemma_suggest_fields_by_name(params: Seq<(String, String)>)
    ensures
        unnamed(params, "query"@) ==> suggest_params_of(params) == Err::<SuggestParamsModel, _>(
            ParamError::MissingQuery,
        ),
        suggest_params_of(params) matches Ok(m) ==> {
            &&& text_field_read(params, "query"@, Some(m.query))
            &&& number_field_read(params, "top"@, m.top)
            &&& number_field_read(params, "skip"@, m.skip)
            &&& number_field_read(params, "levenshtein"@, m.levenshtein)
            &&& list_field_read(params, "fields"@, m.fields)
        },
{
    lemma_lookup_first(params, "query"@);
    lemma_lookup_first(params, "top"@);
    lemma_lookup_first(params, "skip"@);
    lemma_lookup_first(params, "levenshtein"@);
    lemma_list_param_read(params, "fields"@);
}


/// The separator between a boosted field and its boost.
pub open spec fn arrow() -> Seq<char> {
    seq!['-', '>']
}

/// `->` stands nowhere in `w`.
pub open spec fn no_arrow(w: Seq<char>) -> bool {
    forall|j: int| !#[trigger] occurs_at(w, arrow(), j)
}

/// `piece` boosts `field` by `boost`: it is the field, `->`, the boost and
/// then nothing or another `->` with whatever follows, and neither the
/// field nor the boost holds `->`.
pub open spec fn boost_entry(piece: Seq<char>, field: Seq<char>, boost: Seq<char>) -> bool {
    &&& no_arrow(field)
    &&& no_arrow(boost)
    &&& {
        ||| piece == field + arrow() + boost
        ||| exists|rest: Seq<char>| piece == field + arrow() + boost + arrow() + rest
    }
}

proof fn lemma_first_arrow(f: Seq<char>, t: Seq<char>)
    requires
        no_arrow(f),
    ensures
        first_from(f + arrow() + t, arrow(), 0) == Some(f.len() as int),
{
    let w = f + arrow() + t;
    let n = f.len() as int;
    assert(w[n] == '-' && w[n + 1] == '>');
    assert(w.subrange(n, n + 2) =~= arrow());
    assert forall|j: int| 0 <= j < n implies !#[trigger] occurs_at(w, arrow(), j) by {
        if occurs_at(w, arrow(), j) {
            assert(w.subrange(j, j + 2)[0] == w[j]);
            assert(w.subrange(j, j + 2)[1] == w[j + 1]);
            assert(w[j + 1] == '>');
            if j + 1 < n {
                assert(f.subrange(j, j + 2) =~= w.subrange(j, j + 2));
                assert(occurs_at(f, arrow(), j));
            } else {
                assert(w[j + 1] == w[n]);
            }
        }
    }
    lemma_first_from_found(w, arrow(), 0, n);
}

proof fn lemma_no_arrow_one_piece(w: Seq<char>)
    requires
        no_arrow(w),
    ensures
        split(w, arrow()) == seq![w],
{
    lemma_first_from_facts(w, arrow(), 0);
    if first_from(w, arrow(), 0) is Some {
        let i = first_from(w, arrow(), 0)->0;
        assert(occurs_at(w, arrow(), i));
    }
}

/// What a well-formed boost element reads as is the one boost entry that
/// it is.
proof fn lemma_boost_entry_of(piece: Seq<char>)
    requires
        split(piece, arrow()).len() >= 2,
    ensures
        boost_entry(piece, split(piece, arrow())[0], split(piece, arrow())[1]),
        forall|f: Seq<char>, b: Seq<char>|
            #[trigger] boost_entry(piece, f, b) ==> f == split(piece, arrow())[0] && b == split(
                piece,
                arrow(),
            )[1],
{
    let parts = split(piece, arrow());
    lemma_split_pieces(piece, arrow());
    assert(no_arrow(parts[0])) by {
        assert forall|j: int| !#[trigger] occurs_at(parts[0], arrow(), j) by {}
    }
    assert(no_arrow(parts[1])) by {
        assert forall|j: int| !#[trigger] occurs_at(parts[1], arrow(), j) by {}
    }
    let tail = parts.drop_first();
    assert(piece == parts[0] + arrow() + join(tail, arrow()));
    if parts.len() == 2 {
        assert(join(tail, arrow()) == parts[1]);
    } else {
        assert(tail[0] == parts[1]);
        assert(join(tail, arrow()) == parts[1] + arrow() + join(tail.drop_first(), arrow()));
        assert(piece =~= parts[0] + arrow() + parts[1] + arrow() + join(tail.drop_first(), arrow()));
    }
    assert forall|f: Seq<char>, b: Seq<char>| #[trigger] boost_entry(piece, f, b) implies f
        == parts[0] && b == parts[1] by {
        let after = if piece == f + arrow() + b {
            Seq::<char>::empty()
        } else {
            let rest = choose|rest: Seq<char>| piece == f + arrow() + b + arrow() + rest;
            arrow() + rest
        };
        assert(piece =~= f + arrow() + (b + after));
        lemma_first_arrow(f, b + after);
        assert(piece.take(f.len() as int) =~= f);
        assert(piece.skip(f.len() as int + 2) =~= b + after);
        assert(parts == seq![f] + split(b + after, arrow()));
        if after.len() == 0 {
            assert(b + after =~= b);
            lemma_no_arrow_one_piece(b);
        } else {
            let rest = choose|rest: Seq<char>| piece == f + arrow() + b + arrow() + rest;
            assert(after == arrow() + rest);
            assert(b + after =~= b + arrow() + rest);
            lemma_first_arrow(b, rest);
            assert((b + after).take(b.len() as int) =~= b);
        }
        assert(parts[1] == split(b + after, arrow())[0]);
    }
}

/// The boosts read from well-formed elements: one per element, in order,
/// each the element's field and a boost that is a number.
proof fn lemma_boosts_of_entries(els: Seq<Seq<char>>)
    ensures
        boosts_of(els) matches Ok(list) ==> list.len() == els.len() && forall|k: int|
            0 <= k < els.len() ==> split(#[trigger] els[k], arrow()).len() >= 2 && list[k] == (
                split(els[k], arrow())[0],
                split(els[k], arrow())[1],
            ) && is_float_literal(split(els[k], arrow())[1]),
    decreases els.len(),
{
    if els.len() > 0 {
        lemma_boosts_of_entries(els.drop_first());
        if boosts_of(els) is Ok {
            let list = boosts_of(els)->Ok_0;
            let tl = boosts_of(els.drop_first())->Ok_0;
            assert(list == seq![(split(els[0], arrow())[0], split(els[0], arrow())[1])] + tl);
            assert forall|k: int| 0 <= k < els.len() implies split(#[trigger] els[k], arrow()).len()
                >= 2 && list[k] == (split(els[k], arrow())[0], split(els[k], arrow())[1])
                && is_float_literal(split(els[k], arrow())[1]) by {
                if k > 0 {
                    assert(els[k] == els.drop_first()[k - 1]);
                    assert(list[k] == tl[k - 1]);
                }
            }
        }
    }
}

/// The boost map gives each field the boost of the last pair naming it.
proof fn lemma_boost_map_last(pairs: Seq<(Seq<char>, Seq<char>)>)
    ensures
        forall|f: Seq<char>|
            #[trigger] boost_map(pairs).contains_key(f) <==> exists|k: int|
                0 <= k < pairs.len() && pairs[k].0 == f,
        forall|f: Seq<char>|
            #[trigger] boost_map(pairs).contains_key(f) ==> exists|k: int|
                0 <= k < pairs.len() && pairs[k].0 == f && boost_map(pairs)[f] == pairs[k].1
                    && forall|k2: int| k < k2 < pairs.len() ==> pairs[k2].0 != f,
    decreases pairs.len(),
{
    if pairs.len() > 0 {
        let init = pairs.drop_last();
        lemma_boost_map_last(init);
        let last = pairs.last();
        assert forall|f: Seq<char>| #[trigger] boost_map(pairs).contains_key(f) <==> exists|k: int|
            0 <= k < pairs.len() && pairs[k].0 == f by {
            if boost_map(pairs).contains_key(f) && f != last.0 {
                assert(boost_map(init).contains_key(f));
                let k = choose|k: int| 0 <= k < init.len() && init[k].0 == f;
                assert(pairs[k] == init[k]);
            }
            if f == last.0 {
                assert(pairs[pairs.len() - 1].0 == f);
            }
            if exists|k: int| 0 <= k < pairs.len() && pairs[k].0 == f {
                let k = choose|k: int| 0 <= k < pairs.len() && pairs[k].0 == f;
                if k < pairs.len() - 1 {
                    assert(init[k] == pairs[k]);
                    assert(boost_map(init).contains_key(f));
                } else {
                    assert(pairs[k] == last);
                }
            }
        }
        assert forall|f: Seq<char>| #[trigger] boost_map(pairs).contains_key(f) implies exists|
            k: int,
        | 0 <= k < pairs.len() && pairs[k].0 == f && boost_map(pairs)[f] == pairs[k].1 && forall|
            k2: int,
        | k < k2 < pairs.len() ==> pairs[k2].0 != f by {
            if f == last.0 {
                let k = pairs.len() - 1;
                assert(pairs[k] == last);
            } else {
                assert(boost_map(init).contains_key(f));
                let k = choose|k: int|
                    0 <= k < init.len() && init[k].0 == f && boost_map(init)[f] == init[k].1
                        && forall|k2: int| k < k2 < init.len() ==> init[k2].0 != f;
                assert(pairs[k] == init[k]);
                assert forall|k2: int| k < k2 < pairs.len() implies pairs[k2].0 != f by {
                    if k2 < init.len() {
                        assert(pairs[k2] == init[k2]);
                    }
                }
            }
        }
    }
}

/// `boosts` is the boost table of `pieces`: a field has a boost exactly
/// when some piece boosts it, the boost is that of the last piece that
/// boosts the field, and it is a number.
pub open spec fn boost_table(pieces: Seq<Seq<char>>, boosts: Map<Seq<char>, Seq<char>>) -> bool {
    &&& forall|f: Seq<char>|
        #[trigger] boosts.contains_key(f) <==> exists|k: int, b: Seq<char>|
            0 <= k < pieces.len() && boost_entry(pieces[k], f, b)
    &&& forall|f: Seq<char>|
        #[trigger] boosts.contains_key(f) ==> is_float_literal(boosts[f]) && exists|k: int|
            0 <= k < pieces.len() && boost_entry(pieces[k], f, boosts[f]) && forall|
                k2: int,
                b2: Seq<char>,
            | k < k2 < pieces.len() ==> !boost_entry(pieces[k2], f, b2)
}

/// The boosts of a search request are read from its `boost_fields`
/// parameter: none without one; otherwise the parameter cut at its commas,
/// each piece `field->boost`, a later boost of a field replacing an earlier.
pub proof fn lemma_search_boosts_by_name(params: Seq<(String, String)>)
    ensures
        search_params_of(params) matches Ok(m) ==> {
            &&& unnamed(params, "boost_fields"@) ==> m.boost_fields == Map::<
                Seq<char>,
                Seq<char>,
            >::empty()
            &&& forall|i: int| #[trigger]
                first_named(params, "boost_fields"@, i) ==> exists|pieces: Seq<Seq<char>>|
                    comma_pieces(pieces, params[i].1@) && boost_table(pieces, m.boost_fields)
        },
{
    lemma_lookup_first(params, "boost_fields"@);
    lemma_list_param_read(params, "boost_fields"@);
    if search_params_of(params) is Ok {
        let m = search_params_of(params)->Ok_0;
        match list_param(params, "boost_fields"@) {
            None => {
                assert(m.boost_fields =~= Map::<Seq<char>, Seq<char>>::empty());
            },
            Some(pieces) => {
                let list = boosts_of(pieces)->Ok_0;
                assert(m.boost_fields == boost_map(list));
                lemma_boosts_of_entries(pieces);
                lemma_boost_map_last(list);
                assert forall|k: int| 0 <= k < pieces.len() implies boost_entry(
                    pieces[k],
                    list[k].0,
                    list[k].1,
                ) && forall|f: Seq<char>, b: Seq<char>|
                    #[trigger] boost_entry(pieces[k], f, b) ==> f == list[k].0 && b == list[k].1 by {
                    assert(split(pieces[k], arrow()).len() >= 2);
                    lemma_boost_entry_of(pieces[k]);
                }
                assert(boost_table(pieces, m.boost_fields)) by {
                    assert forall|f: Seq<char>| #[trigger] m.boost_fields.contains_key(f)
                        <==> exists|k: int, b: Seq<char>|
                        0 <= k < pieces.len() && boost_entry(pieces[k], f, b) by {
                        if m.boost_fields.contains_key(f) {
                            let k = choose|k: int| 0 <= k < list.len() && list[k].0 == f;
                            assert(boost_entry(pieces[k], f, list[k].1));
                        }
                        if exists|k: int, b: Seq<char>|
                            0 <= k < pieces.len() && boost_entry(pieces[k], f, b) {
                            let (k, b) = choose|k: int, b: Seq<char>|
                                0 <= k < pieces.len() && boost_entry(pieces[k], f, b);
                            assert(split(pieces[k], arrow()).len() >= 2);
                            lemma_boost_entry_of(pieces[k]);
                            assert(list[k].0 == f);
                        }
                    }
                    assert forall|f: Seq<char>| #[trigger] m.boost_fields.contains_key(f) implies
                        is_float_literal(m.boost_fields[f]) && exists|k: int|
                        0 <= k < pieces.len() && boost_entry(pieces[k], f, m.boost_fields[f])
                            && forall|k2: int, b2: Seq<char>|
                            k < k2 < pieces.len() ==> !boost_entry(pieces[k2], f, b2) by {
                        let k = choose|k: int|
                            0 <= k < list.len() && list[k].0 == f && boost_map(list)[f]
                                == list[k].1 && forall|k2: int|
                                k < k2 < list.len() ==> list[k2].0 != f;
                        assert(boost_entry(pieces[k], f, m.boost_fields[f]));
                        assert forall|k2: int, b2: Seq<char>|
                            k < k2 < pieces.len() implies !boost_entry(pieces[k2], f, b2) by {
                            assert(list[k2].0 != f);
                            assert(split(pieces[k2], arrow()).len() >= 2);
                            lemma_boost_entry_of(pieces[k2]);
                        }
                    }
                }
            },
        }
    }
}


/// How a number is read from its digits: one digit is its own value; one
/// more digit at the end makes ten times the number plus that digit, while
/// that fits; a `+` in front changes nothing; and a text with any other
/// character, or none at all, is no number.
pub proof fn lemma_parse_usize_digits(s: Seq<char>, c: char)
    ensures
        is_digit(c) ==> parse_usize_of(seq![c]) == Some((c as u32 - 48) as usize),
        is_digit(c) && s.len() > 0 && s[0] != '+' && parse_usize_of(s) is Some && parse_usize_of(
            s,
        )->0 * 10 + (c as u32 - 48) <= usize::MAX ==> parse_usize_of(s.push(c)) == Some(
            (parse_usize_of(s)->0 * 10 + (c as u32 - 48)) as usize,
        ),
        s.len() > 0 && s[0] != '+' ==> parse_usize_of(seq!['+'] + s) == parse_usize_of(s),
        !is_digit(c) && c != '+' ==> parse_usize_of(seq![c]) is None,
        parse_usize_of(Seq::empty()) is None,
        parse_usize_of(seq!['+']) is None,
{
    assert(seq![c].drop_last() =~= Seq::<char>::empty());
    assert(seq![c].last() == c);
    if s.len() > 0 && s[0] != '+' {
        assert((seq!['+'] + s).skip(1) =~= s);
        assert(s.push(c)[0] == s[0]);
        assert(s.push(c).drop_last() =~= s);
        if all_digits(s) && is_digit(c) {
            assert(all_digits(s.push(c))) by {
                assert forall|i: int| 0 <= i < s.push(c).len() implies #[trigger] is_digit(
                    s.push(c)[i],
                ) by {
                    if i < s.len() {
                        assert(s.push(c)[i] == s[i]);
                    }
                }
            }
        }
    }
    if !is_digit(c) {
        assert(!all_digits(seq![c])) by {
            assert(!is_digit(seq![c][0]));
        }
    }
    assert(seq!['+'].skip(1) =~= Seq::<char>::empty());
}

} // verus!
