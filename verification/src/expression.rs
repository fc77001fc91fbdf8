use vstd::prelude::*;
use vstd::string::StrSliceExecFns;

verus! {

/// Copies the characters of `s` into a vector.
pub fn chars_of(s: &str) -> (cs: Vec<char>)
    ensures
        cs@ == s@,
{
    broadcast use vstd::string::group_string_axioms;
    let mut cs: Vec<char> = Vec::new();
    for c in it: s.chars()
        invariant
            it.seq() == s@,
            cs@ == it.seq().take(it.index() as int),
    {
        cs.push(c);
        assert(cs@ =~= it.seq().take(it.index() + 1));
    }
    assert(cs@ =~= s@);
    cs
}


/// An ASCII decimal digit.
pub open spec fn is_digit(c: char) -> bool {
    '0' <= c && c <= '9'
}

/// A sign character.
pub open spec fn is_sign(c: char) -> bool {
    c == '+' || c == '-'
}

/// Every character of `s` is a decimal digit.
pub open spec fn all_digits(s: Seq<char>) -> bool {
    forall|i: int| 0 <= i < s.len() ==> #[trigger] is_digit(s[i])
}

/// The code of `c` with ASCII upper-case letters mapped to lower case.
pub open spec fn ascii_lower(c: char) -> u32 {
    if 'A' <= c && c <= 'Z' {
        (c as u32 + 32) as u32
    } else {
        c as u32
    }
}

/// `s` spells the lower-case `word`, ignoring ASCII case.
pub open spec fn eq_ignore_case(s: Seq<char>, word: Seq<char>) -> bool {
    &&& s.len() == word.len()
    &&& forall|i: int| 0 <= i < s.len() ==> #[trigger] ascii_lower(s[i]) == word[i] as u32
}

/// `Digit+ | Digit+ '.' Digit* | Digit* '.' Digit+`, where the first `int_len`
/// characters of `m` are the digits before the point.
pub open spec fn is_mantissa(m: Seq<char>, int_len: int) -> bool {
    &&& 0 <= int_len <= m.len()
    &&& all_digits(m.take(int_len))
    &&& if int_len == m.len() {
        int_len > 0
    } else {
        &&& m[int_len] == '.'
        &&& all_digits(m.skip(int_len + 1))
        &&& m.len() >= 2
    }
}

/// `('e' | 'E') Sign? Digit+`.
pub open spec fn is_exponent(x: Seq<char>) -> bool {
    &&& x.len() >= 2
    &&& (x[0] == 'e' || x[0] == 'E')
    &&& {
        let rest = x.skip(1);
        let digits = if is_sign(rest[0]) { rest.skip(1) } else { rest };
        digits.len() > 0 && all_digits(digits)
    }
}

/// `Mantissa Exponent?`
pub open spec fn is_number(n: Seq<char>) -> bool {
    exists|int_len: int, end: int|
        0 <= end <= n.len() && #[trigger] is_mantissa(n.take(end), int_len) && (end == n.len()
            || is_exponent(n.skip(end)))
}

/// The text that `str::parse::<f32>` accepts, as its documentation gives the
/// grammar: `Sign? ('inf' | 'infinity' | 'nan' | Number)`, letters in any case.
pub open spec fn is_float_literal(s: Seq<char>) -> bool {
    let body = if s.len() > 0 && is_sign(s[0]) { s.skip(1) } else { s };
    ||| eq_ignore_case(body, seq!['i', 'n', 'f'])
    ||| eq_ignore_case(body, seq!['i', 'n', 'f', 'i', 'n', 'i', 't', 'y'])
    ||| eq_ignore_case(body, seq!['n', 'a', 'n'])
    ||| is_number(body)
}

fn is_digit_char(c: char) -> (b: bool)
    ensures
        b == is_digit(c),
{
    '0' <= c && c <= '9'
}

fn is_sign_char(c: char) -> (b: bool)
    ensures
        b == is_sign(c),
{
    c == '+' || c == '-'
}

fn lower_code(c: char) -> (r: u32)
    ensures
        r == ascii_lower(c),
{
    if 'A' <= c && c <= 'Z' {
        (c as u32) + 32
    } else {
        c as u32
    }
}

/// Whether `cs[lo..hi]` spells the lower-case `word` ignoring ASCII case.
fn matches_word(cs: &Vec<char>, lo: usize, hi: usize, word: &Vec<char>) -> (b: bool)
    requires
        lo <= hi <= cs.len(),
    ensures
        b == eq_ignore_case(cs@.subrange(lo as int, hi as int), word@),
{
    if hi - lo != word.len() {
        return false;
    }
    let mut i: usize = 0;
    while i < word.len()
        invariant
            hi - lo == word.len(),
            lo <= hi <= cs.len(),
            i <= word.len(),
            forall|j: int|
                0 <= j < i ==> #[trigger] ascii_lower(cs@.subrange(lo as int, hi as int)[j])
                    == word@[j] as u32,
        decreases word.len() - i,
    {
        if lower_code(cs[lo + i]) != word[i] as u32 {
            assert(cs@.subrange(lo as int, hi as int)[i as int] == cs@[lo + i]);
            return false;
        }
        i += 1;
    }
    true
}

/// Length of the run of digits that starts at `from` and ends before `hi`.
fn digit_run(cs: &Vec<char>, from: usize, hi: usize) -> (end: usize)
    requires
        from <= hi <= cs.len(),
    ensures
        from <= end <= hi,
        all_digits(cs@.subrange(from as int, end as int)),
        end == hi || !is_digit(cs@[end as int]),
{
    let mut q = from;
    while q < hi && is_digit_char(cs[q])
        invariant
            from <= q <= hi <= cs.len(),
            all_digits(cs@.subrange(from as int, q as int)),
        decreases hi - q,
    {
        q += 1;
        assert forall|i: int| 0 <= i < q - from implies #[trigger] is_digit(
            cs@.subrange(from as int, q as int)[i],
        ) by {
            if i < q - 1 - from {
                assert(cs@.subrange(from as int, q as int)[i] == cs@.subrange(
                    from as int,
                    q - 1,
                )[i]);
            }
        }
    }
    q
}


/// Whether `cs[e..hi]` is an exponent part.
fn exponent_at(cs: &Vec<char>, e: usize, hi: usize) -> (b: bool)
    requires
        e <= hi <= cs.len(),
    ensures
        b == is_exponent(cs@.subrange(e as int, hi as int)),
{
    let ghost x = cs@.subrange(e as int, hi as int);
    if hi - e < 2 || !(cs[e] == 'e' || cs[e] == 'E') {
        return false;
    }
    let mut d = e + 1;
    if is_sign_char(cs[d]) {
        d += 1;
    }
    let end = digit_run(cs, d, hi);
    proof {
        let rest = x.skip(1);
        let digits = if is_sign(rest[0]) { rest.skip(1) } else { rest };
        assert(digits =~= cs@.subrange(d as int, hi as int));
        if end < hi {
            assert(digits[end - d] == cs@[end as int]);
        } else {
            assert(digits =~= cs@.subrange(d as int, end as int));
        }
    }
    end == hi && end > d
}

/// Whether `cs[p..hi]` is a number in the grammar of `is_number`.
fn number_at(cs: &Vec<char>, p: usize, hi: usize) -> (b: bool)
    requires
        p <= hi <= cs.len(),
    ensures
        b == is_number(cs@.subrange(p as int, hi as int)),
{
    let ghost n = cs@.subrange(p as int, hi as int);
    let q1 = digit_run(cs, p, hi);
    let ghost il = q1 - p;
    assert(n.take(il) =~= cs@.subrange(p as int, q1 as int));
    // Any witness of `is_number` has its point (or end) right after the first digit run.
    assert forall|il2: int, end: int|
        0 <= end <= n.len() && #[trigger] is_mantissa(n.take(end), il2) && (end == n.len()
            || is_exponent(n.skip(end))) implies il2 == il by {
        if il2 < il {
            assert(n[il2] == cs@[p + il2]);
            assert(is_digit(cs@.subrange(p as int, q1 as int)[il2]));
            if il2 == end {
                assert(n.skip(end)[0] == n[end]);
            } else {
                assert(n.take(end)[il2] == n[il2]);
            }
        } else if il2 > il {
            assert(n.take(end).take(il2)[il] == n[il]);
            assert(is_digit(n.take(end).take(il2)[il]));
        }
    }
    if q1 < hi && cs[q1] == '.' {
        let q2 = digit_run(cs, q1 + 1, hi);
        if q2 - p < 2 {
            proof {
                assert forall|il2: int, end: int|
                    0 <= end <= n.len() && #[trigger] is_mantissa(n.take(end), il2) && (end
                        == n.len() || is_exponent(n.skip(end))) implies false by {
                    assert(il2 == il);
                    assert(n[il] == '.');
                    if end == il {
                        if end < n.len() {
                            assert(n.skip(end)[0] == n[end]);
                        }
                    } else if end >= 2 {
                        assert(n.take(end).skip(il + 1)[0] == n[il + 1]);
                        assert(n[il + 1] == cs@[q2 as int]);
                    }
                }
            }
            return false;
        }
        let ghost end = q2 - p;
        assert(n.take(end).skip(il + 1) =~= cs@.subrange(q1 + 1, q2 as int));
        assert(n.take(end).take(il) =~= n.take(il));
        assert(is_mantissa(n.take(end), il));
        if q2 == hi {
            return true;
        }
        let e = exponent_at(cs, q2, hi);
        proof {
            assert(n.skip(end) =~= cs@.subrange(q2 as int, hi as int));
            if !e {
                assert forall|il2: int, end2: int|
                    0 <= end2 <= n.len() && #[trigger] is_mantissa(n.take(end2), il2) && (end2
                        == n.len() || is_exponent(n.skip(end2))) implies false by {
                    assert(il2 == il);
                    assert(n.take(end2)[il] == '.');
                    if end2 == il {
                        assert(n.skip(end2)[0] == n[end2]);
                    } else if end2 < end {
                        assert(n[end2] == cs@[q1 + 1 + (end2 - il - 1)]);
                        assert(cs@.subrange(q1 + 1, q2 as int)[end2 - il - 1] == n[end2]);
                        assert(is_digit(cs@.subrange(q1 + 1, q2 as int)[end2 - il - 1]));
                        assert(n.skip(end2)[0] == n[end2]);
                    } else if end2 > end {
                        assert(n.take(end2).skip(il + 1)[end - il - 1] == n[end]);
                        assert(n[end] == cs@[q2 as int]);
                        assert(is_digit(n.take(end2).skip(il + 1)[end - il - 1]));
                    } else {
                        assert(end2 == end);
                        assert(!is_exponent(n.skip(end)));
                    }
                }
            }
        }
        e
    } else {
        if q1 == p {
            proof {
                assert forall|il2: int, end: int|
                    0 <= end <= n.len() && #[trigger] is_mantissa(n.take(end), il2) && (end
                        == n.len() || is_exponent(n.skip(end))) implies false by {
                    assert(il2 == 0);
                    if end > 0 {
                        assert(n.take(end)[0] == n[0]);
                    }
                }
            }
            return false;
        }
        assert(is_mantissa(n.take(il), il));
        if q1 == hi {
            assert(n.take(il) =~= n);
            return true;
        }
        let e = exponent_at(cs, q1, hi);
        proof {
            assert(n.skip(il) =~= cs@.subrange(q1 as int, hi as int));
            if !e {
                assert forall|il2: int, end2: int|
                    0 <= end2 <= n.len() && #[trigger] is_mantissa(n.take(end2), il2) && (end2
                        == n.len() || is_exponent(n.skip(end2))) implies false by {
                    assert(il2 == il);
                    if end2 > il {
                        assert(n.take(end2)[il] == n[il]);
                    }
                }
            }
        }
        e
    }
}

/// Whether `cs[lo..hi]` is text that `str::parse::<f32>` accepts.
pub fn float_literal_at(cs: &Vec<char>, lo: usize, hi: usize) -> (b: bool)
    requires
        lo <= hi <= cs.len(),
    ensures
        b == is_float_literal(cs@.subrange(lo as int, hi as int)),
{
    let ghost s = cs@.subrange(lo as int, hi as int);
    let mut p = lo;
    if p < hi && is_sign_char(cs[p]) {
        p += 1;
    }
    proof {
        let body = if s.len() > 0 && is_sign(s[0]) { s.skip(1) } else { s };
        assert(body =~= cs@.subrange(p as int, hi as int));
    }
    let inf = vec!['i', 'n', 'f'];
    let infinity = vec!['i', 'n', 'f', 'i', 'n', 'i', 't', 'y'];
    let nan = vec!['n', 'a', 'n'];
    assert(inf@ =~= seq!['i', 'n', 'f']);
    assert(infinity@ =~= seq!['i', 'n', 'f', 'i', 'n', 'i', 't', 'y']);
    assert(nan@ =~= seq!['n', 'a', 'n']);
    if matches_word(cs, p, hi, &inf) || matches_word(cs, p, hi, &infinity) || matches_word(
        cs,
        p,
        hi,
        &nan,
    ) {
        return true;
    }
    number_at(cs, p, hi)
}


/// A token of a score expression.
#[derive(Debug)]
#[allow(non_camel_case_types)]
pub enum OperatorType {
    Division,
    Mul,
    Add,
    Sub,
    /// The placeholder `$SCORE`, which stands for the score being rewritten.
    _Score_,
    /// A number, kept as the text that `str::parse::<f32>` accepts.
    Float(String),
}

/// What a token is, with a number given by its text.
pub enum OperatorModel {
    Division,
    Mul,
    Add,
    Sub,
    Score,
    Float(Seq<char>),
}

impl View for OperatorType {
    type V = OperatorModel;

    open spec fn view(&self) -> OperatorModel {
        match self {
            OperatorType::Division => OperatorModel::Division,
            OperatorType::Mul => OperatorModel::Mul,
            OperatorType::Add => OperatorModel::Add,
            OperatorType::Sub => OperatorModel::Sub,
            OperatorType::_Score_ => OperatorModel::Score,
            OperatorType::Float(text) => OperatorModel::Float(text@),
        }
    }
}

/// The tokens of `ops`, each by its view.
pub open spec fn ops_view(ops: Seq<OperatorType>) -> Seq<OperatorModel> {
    ops.map_values(|o: OperatorType| o@)
}

/// The token that a pending word stands for as soon as it is complete.
pub open spec fn operator_token(w: Seq<char>) -> Option<OperatorModel> {
    if w == seq!['+'] {
        Some(OperatorModel::Add)
    } else if w == seq!['-'] {
        Some(OperatorModel::Sub)
    } else if w == seq!['/'] {
        Some(OperatorModel::Division)
    } else if w == seq!['*'] {
        Some(OperatorModel::Mul)
    } else if w == seq!['$', 'S', 'C', 'O', 'R', 'E'] {
        Some(OperatorModel::Score)
    } else {
        None
    }
}

/// The number that a pending word gives when it ends, if it is one.
pub open spec fn flush(ops: Seq<OperatorModel>, current: Seq<char>) -> Seq<OperatorModel> {
    if is_float_literal(current) {
        ops.push(OperatorModel::Float(current))
    } else {
        ops
    }
}

/// One character of the scan: a space ends the pending word; any other
/// character extends it, and a pending word that spells an operator or
/// `$SCORE` becomes that token at once.
pub open spec fn tokenize_step(state: (Seq<OperatorModel>, Seq<char>), c: char) -> (
    Seq<OperatorModel>,
    Seq<char>,
) {
    let (ops, current) = if c == ' ' {
        (flush(state.0, state.1), Seq::<char>::empty())
    } else {
        (state.0, state.1.push(c))
    };
    match operator_token(current) {
        Some(op) => (ops.push(op), Seq::<char>::empty()),
        None => (ops, current),
    }
}

/// The tokens found and the pending word after scanning `s` from the left.
pub open spec fn scan(s: Seq<char>) -> (Seq<OperatorModel>, Seq<char>)
    decreases s.len(),
{
    if s.len() == 0 {
        (Seq::empty(), Seq::empty())
    } else {
        tokenize_step(scan(s.drop_last()), s.last())
    }
}

/// The tokens of an expression: the scan, with the last pending word
/// given its chance to be a number.
pub open spec fn tokenize(s: Seq<char>) -> Seq<OperatorModel> {
    let (ops, current) = scan(s);
    flush(ops, current)
}

/// The operator token that `cs[lo..hi]` spells, if any.
fn operator_at(cs: &Vec<char>, lo: usize, hi: usize) -> (r: Option<OperatorType>)
    requires
        lo <= hi <= cs.len(),
    ensures
        match r {
            Some(o) => operator_token(cs@.subrange(lo as int, hi as int)) == Some(o@),
            None => operator_token(cs@.subrange(lo as int, hi as int)) is None,
        },
{
    let ghost w = cs@.subrange(lo as int, hi as int);
    if hi - lo == 1 {
        let c = cs[lo];
        assert(w =~= seq![c]);
        if c == '+' {
            assert(w =~= seq!['+']);
            Some(OperatorType::Add)
        } else if c == '-' {
            assert(w =~= seq!['-']);
            assert(w != seq!['+']) by { assert(seq!['+'][0] == '+'); }
            Some(OperatorType::Sub)
        } else if c == '/' {
            assert(w =~= seq!['/']);
            assert(w != seq!['+']) by { assert(seq!['+'][0] == '+'); }
            assert(w != seq!['-']) by { assert(seq!['-'][0] == '-'); }
            Some(OperatorType::Division)
        } else if c == '*' {
            assert(w =~= seq!['*']);
            assert(w != seq!['+']) by { assert(seq!['+'][0] == '+'); }
            assert(w != seq!['-']) by { assert(seq!['-'][0] == '-'); }
            assert(w != seq!['/']) by { assert(seq!['/'][0] == '/'); }
            Some(OperatorType::Mul)
        } else {
            assert(w[0] == c);
            None
        }
    } else if hi - lo == 6 && cs[lo] == '$' && cs[lo + 1] == 'S' && cs[lo + 2] == 'C' && cs[lo
        + 3] == 'O' && cs[lo + 4] == 'R' && cs[lo + 5] == 'E' {
        assert(w =~= seq!['$', 'S', 'C', 'O', 'R', 'E']);
        assert(seq!['+'].len() == 1 && seq!['-'].len() == 1 && seq!['/'].len() == 1
            && seq!['*'].len() == 1);
        Some(OperatorType::_Score_)
    } else {
        proof {
            if hi - lo == 6 {
                assert(w[0] == cs@[lo as int]);
                assert(w[1] == cs@[lo + 1]);
                assert(w[2] == cs@[lo + 2]);
                assert(w[3] == cs@[lo + 3]);
                assert(w[4] == cs@[lo + 4]);
                assert(w[5] == cs@[lo + 5]);
                if w == seq!['$', 'S', 'C', 'O', 'R', 'E'] {
                    assert(w[0] == '$');
                    assert(w[1] == 'S');
                    assert(w[2] == 'C');
                    assert(w[3] == 'O');
                    assert(w[4] == 'R');
                    assert(w[5] == 'E');
                }
            }
            assert(w.len() != 1);
        }
        None
    }
}

/// A score expression such as `$SCORE * 2.0`, with the tokens it was read into.
#[derive(Debug)]
pub struct ScoreExpression {
    expression: String,
    ops: Vec<OperatorType>,
}

impl View for ScoreExpression {
    type V = (Seq<char>, Seq<OperatorModel>);

    /// The expression's text and its tokens.
    closed spec fn view(&self) -> (Seq<char>, Seq<OperatorModel>) {
        (self.expression@, ops_view(self.ops@))
    }
}

/// One side of a score computation.
#[derive(Debug)]
pub enum Operand {
    /// The score being rewritten.
    Score,
    /// A number given by its text.
    Number(String),
}

/// One side of a score computation, a number given by its text.
pub enum OperandModel {
    Score,
    Number(Seq<char>),
}

impl View for Operand {
    type V = OperandModel;

    open spec fn view(&self) -> OperandModel {
        match self {
            Operand::Score => OperandModel::Score,
            Operand::Number(text) => OperandModel::Number(text@),
        }
    }
}

/// The arithmetic that joins the two sides.
#[derive(Debug, Clone, Copy, PartialEq, Eq, Structural)]
pub enum Arithmetic {
    Division,
    Mul,
    Add,
    Sub,
}

/// How a score is computed: `left operator right`.
#[derive(Debug)]
pub struct ScorePlan {
    pub left: Operand,
    pub operator: Arithmetic,
    pub right: Operand,
}

/// Why the tokens of an expression do not describe a computation.
#[derive(Debug, Clone, Copy, PartialEq, Eq, Structural)]
pub enum PlanError {
    /// There is no token at this position.
    MissingToken(usize),
    /// The first token is neither a number nor `$SCORE`.
    BadStart,
    /// The third token is neither a number nor `$SCORE`.
    BadEnd,
    /// The second token is not an arithmetic operator.
    BadOperator,
}

/// The operand that a token stands for, if any.
pub open spec fn operand_of(o: OperatorModel) -> Option<OperandModel> {
    match o {
        OperatorModel::Score => Some(OperandModel::Score),
        OperatorModel::Float(text) => Some(OperandModel::Number(text)),
        _ => None,
    }
}

/// The arithmetic that a token stands for, if any.
pub open spec fn arithmetic_of(o: OperatorModel) -> Option<Arithmetic> {
    match o {
        OperatorModel::Division => Some(Arithmetic::Division),
        OperatorModel::Mul => Some(Arithmetic::Mul),
        OperatorModel::Add => Some(Arithmetic::Add),
        OperatorModel::Sub => Some(Arithmetic::Sub),
        _ => None,
    }
}

/// The computation that tokens describe: the first token is the left side,
/// the third the right side and the second the operator; checked in that order.
pub open spec fn plan_of(ops: Seq<OperatorModel>) -> Result<
    (OperandModel, Arithmetic, OperandModel),
    PlanError,
> {
    if ops.len() == 0 {
        Err(PlanError::MissingToken(0))
    } else if operand_of(ops[0]) is None {
        Err(PlanError::BadStart)
    } else if ops.len() < 3 {
        Err(PlanError::MissingToken(2))
    } else if operand_of(ops[2]) is None {
        Err(PlanError::BadEnd)
    } else if arithmetic_of(ops[1]) is None {
        Err(PlanError::BadOperator)
    } else {
        Ok((operand_of(ops[0])->0, arithmetic_of(ops[1])->0, operand_of(ops[2])->0))
    }
}

fn operand_from(o: &OperatorType) -> (r: Option<Operand>)
    ensures
        match r {
            Some(x) => operand_of(o@) == Some(x@),
            None => operand_of(o@) is None,
        },
{
    match o {
        OperatorType::_Score_ => Some(Operand::Score),
        OperatorType::Float(text) => Some(Operand::Number(text.clone())),
        _ => None,
    }
}

fn arithmetic_from(o: &OperatorType) -> (r: Option<Arithmetic>)
    ensures
        r == arithmetic_of(o@),
{
    match o {
        OperatorType::Division => Some(Arithmetic::Division),
        OperatorType::Mul => Some(Arithmetic::Mul),
        OperatorType::Add => Some(Arithmetic::Add),
        OperatorType::Sub => Some(Arithmetic::Sub),
        _ => None,
    }
}

impl ScoreExpression {
    /// Reads `expression` into tokens.
    pub fn new(expression: String) -> (r: ScoreExpression)
        ensures
            r@ == (expression@, tokenize(expression@)),
    {
        let ops = Self::parse(expression.as_str());
        ScoreExpression { expression, ops }
    }

    /// The tokens of `expression`, as `tokenize` gives them.
    fn parse(expression: &str) -> (ops: Vec<OperatorType>)
        ensures
            ops_view(ops@) == tokenize(expression@),
    {
        let cs = chars_of(expression);
        let mut ops: Vec<OperatorType> = Vec::new();
        let mut start: usize = 0;
        let mut i: usize = 0;
        while i < cs.len()
            invariant
                cs@ == expression@,
                start <= i <= cs.len(),
                ops_view(ops@) == scan(cs@.take(i as int)).0,
                cs@.subrange(start as int, i as int) == scan(cs@.take(i as int)).1,
            decreases cs.len() - i,
        {
            let ghost before = scan(cs@.take(i as int));
            assert(cs@.take(i + 1).drop_last() =~= cs@.take(i as int));
            let c = cs[i];
            if c == ' ' {
                if float_literal_at(&cs, start, i) {
                    let text = expression.substring_char(start, i).to_owned();
                    ops.push(OperatorType::Float(text));
                    assert(ops_view(ops@) =~= ops_view(ops@.drop_last()).push(
                        OperatorModel::Float(cs@.subrange(start as int, i as int)),
                    ));
                }
                start = i + 1;
            }
            assert(cs@.subrange(start as int, i + 1) =~= (if c == ' ' {
                Seq::<char>::empty()
            } else {
                before.1.push(c)
            }));
            match operator_at(&cs, start, i + 1) {
                Some(op) => {
                    ops.push(op);
                    assert(ops_view(ops@) =~= ops_view(ops@.drop_last()).push(op@));
                    start = i + 1;
                },
                None => {},
            }
            i += 1;
            assert(cs@.subrange(start as int, i as int) =~= scan(cs@.take(i as int)).1);
        }
        assert(cs@.take(i as int) =~= cs@);
        if float_literal_at(&cs, start, i) {
            let text = expression.substring_char(start, i).to_owned();
            ops.push(OperatorType::Float(text));
            assert(ops_view(ops@) =~= ops_view(ops@.drop_last()).push(
                OperatorModel::Float(cs@.subrange(start as int, i as int)),
            ));
        }
        ops
    }

    /// The text the expression was made from.
    pub fn expression(&self) -> (r: &str)
        ensures
            r@ == self@.0,
    {
        self.expression.as_str()
    }

    /// The tokens of the expression.
    pub fn ops(&self) -> (r: &Vec<OperatorType>)
        ensures
            ops_view(r@) == self@.1,
    {
        &self.ops
    }

    /// How the expression computes a score from the tokens, or which token
    /// is missing or out of place.
    pub fn plan(&self) -> (r: Result<ScorePlan, PlanError>)
        ensures
            match r {
                Ok(p) => plan_of(self@.1) == Ok::<_, PlanError>((p.left@, p.operator, p.right@)),
                Err(e) => plan_of(self@.1) == Err::<(OperandModel, Arithmetic, OperandModel), _>(e),
            },
    {
        let ops = &self.ops;
        let ghost m = ops_view(ops@);
        if ops.len() == 0 {
            return Err(PlanError::MissingToken(0));
        }
        assert(m[0] == ops@[0]@);
        let left = match operand_from(&ops[0]) {
            Some(x) => x,
            None => {
                return Err(PlanError::BadStart);
            },
        };
        if ops.len() < 3 {
            return Err(PlanError::MissingToken(2));
        }
        assert(m[1] == ops@[1]@);
        assert(m[2] == ops@[2]@);
        let right = match operand_from(&ops[2]) {
            Some(x) => x,
            None => {
                return Err(PlanError::BadEnd);
            },
        };
        let operator = match arithmetic_from(&ops[1]) {
            Some(x) => x,
            None => {
                return Err(PlanError::BadOperator);
            },
        };
        Ok(ScorePlan { left, operator, right })
    }
}


/// The scan of `s` started from `state` instead of from nothing.
pub open spec fn scan_from(state: (Seq<OperatorModel>, Seq<char>), s: Seq<char>) -> (
    Seq<OperatorModel>,
    Seq<char>,
)
    decreases s.len(),
{
    if s.len() == 0 {
        state
    } else {
        tokenize_step(scan_from(state, s.drop_last()), s.last())
    }
}

proof fn lemma_scan_is_scan_from(s: Seq<char>)
    ensures
        scan(s) == scan_from((Seq::empty(), Seq::empty()), s),
    decreases s.len(),
{
    if s.len() > 0 {
        lemma_scan_is_scan_from(s.drop_last());
    }
}

proof fn lemma_scan_from_append(
    state: (Seq<OperatorModel>, Seq<char>),
    a: Seq<char>,
    b: Seq<char>,
)
    ensures
        scan_from(state, a + b) == scan_from(scan_from(state, a), b),
    decreases b.len(),
{
    if b.len() == 0 {
        assert(a + b =~= a);
    } else {
        assert((a + b).drop_last() =~= a + b.drop_last());
        assert((a + b).last() == b.last());
        lemma_scan_from_append(state, a, b.drop_last());
    }
}

/// The text `$SCORE`.
pub open spec fn score_word() -> Seq<char> {
    seq!['$', 'S', 'C', 'O', 'R', 'E']
}

/// A word that reads as one operand: `$SCORE`, or a number none of whose
/// beginnings spells an operator and which holds no space.
pub open spec fn operand_word(w: Seq<char>) -> bool {
    ||| w == score_word()
    ||| {
        &&& is_float_literal(w)
        &&& !w.contains(' ')
        &&& forall|k: int| 1 <= k <= w.len() ==> #[trigger] operator_token(w.take(k)) is None
    }
}

/// The token that an operand word reads as.
pub open spec fn word_token(w: Seq<char>) -> OperatorModel {
    if w == score_word() {
        OperatorModel::Score
    } else {
        OperatorModel::Float(w)
    }
}

proof fn lemma_empty_is_no_float()
    ensures
        !is_float_literal(Seq::<char>::empty()),
{
    let e = Seq::<char>::empty();
    assert(!eq_ignore_case(e, seq!['i', 'n', 'f']));
    assert(!eq_ignore_case(e, seq!['i', 'n', 'f', 'i', 'n', 'i', 't', 'y']));
    assert(!eq_ignore_case(e, seq!['n', 'a', 'n']));
    assert forall|il: int, end: int| 0 <= end <= e.len() implies !#[trigger] is_mantissa(
        e.take(end),
        il,
    ) by {
        assert(e.take(end) =~= e);
    }
}

/// Scanning an operand word from a state with nothing pending: a number stays
/// pending, `$SCORE` becomes its token.
proof fn lemma_scan_operand_word(ops: Seq<OperatorModel>, w: Seq<char>)
    requires
        operand_word(w),
    ensures
        w == score_word() ==> scan_from((ops, Seq::empty()), w) == (
            ops.push(OperatorModel::Score),
            Seq::<char>::empty(),
        ),
        w != score_word() ==> scan_from((ops, Seq::empty()), w) == (ops, w),
{
    if w == score_word() {
        reveal_with_fuel(scan_from, 7);
        let st = (ops, Seq::<char>::empty());
        assert(w.drop_last().drop_last().drop_last().drop_last().drop_last().drop_last() =~= Seq::<
            char,
        >::empty());
        assert(seq!['+'].len() == 1 && seq!['-'].len() == 1 && seq!['/'].len() == 1
            && seq!['*'].len() == 1);
        assert(seq!['$'] != seq!['+']) by { assert(seq!['+'][0] == '+'); }
        assert(seq!['$'] != seq!['-']) by { assert(seq!['-'][0] == '-'); }
        assert(seq!['$'] != seq!['/']) by { assert(seq!['/'][0] == '/'); }
        assert(seq!['$'] != seq!['*']) by { assert(seq!['*'][0] == '*'); }
        assert(seq!['$'] != score_word());
        assert(Seq::<char>::empty().push('$') =~= seq!['$']);
        assert(seq!['$'].push('S') =~= seq!['$', 'S']);
        assert(seq!['$', 'S'].push('C') =~= seq!['$', 'S', 'C']);
        assert(seq!['$', 'S', 'C'].push('O') =~= seq!['$', 'S', 'C', 'O']);
        assert(seq!['$', 'S', 'C', 'O'].push('R') =~= seq!['$', 'S', 'C', 'O', 'R']);
        assert(seq!['$', 'S', 'C', 'O', 'R'].push('E') =~= score_word());
        assert(seq!['$', 'S'] != score_word());
        assert(seq!['$', 'S', 'C'] != score_word());
        assert(seq!['$', 'S', 'C', 'O'] != score_word());
        assert(seq!['$', 'S', 'C', 'O', 'R'] != score_word());
        assert(w.drop_last() =~= seq!['$', 'S', 'C', 'O', 'R']);
        assert(w.drop_last().drop_last() =~= seq!['$', 'S', 'C', 'O']);
        assert(w.drop_last().drop_last().drop_last() =~= seq!['$', 'S', 'C']);
        assert(w.drop_last().drop_last().drop_last().drop_last() =~= seq!['$', 'S']);
        assert(w.drop_last().drop_last().drop_last().drop_last().drop_last() =~= seq!['$']);
    } else {
        lemma_scan_number_prefix(ops, w, w.len() as int);
        assert(w.take(w.len() as int) =~= w);
    }
}

proof fn lemma_scan_number_prefix(ops: Seq<OperatorModel>, w: Seq<char>, k: int)
    requires
        operand_word(w),
        w != score_word(),
        0 <= k <= w.len(),
    ensures
        scan_from((ops, Seq::empty()), w.take(k)) == (ops, w.take(k)),
    decreases k,
{
    if k > 0 {
        lemma_scan_number_prefix(ops, w, k - 1);
        assert(w.take(k).drop_last() =~= w.take(k - 1));
        assert(w.take(k).last() == w[k - 1]);
        assert(w[k - 1] != ' ') by {
            assert(w.contains(w[k - 1]));
        }
        assert(w.take(k - 1).push(w[k - 1]) =~= w.take(k));
        assert(operator_token(w.take(k)) is None);
    }
}

/// An expression written as an operand word, a space, an operator character,
/// a space and an operand word reads as those three tokens, and its plan is
/// that computation.
pub proof fn lemma_written_expression(left: Seq<char>, op: char, right: Seq<char>)
    requires
        operand_word(left),
        operand_word(right),
        operator_token(seq![op]) is Some,
    ensures
        tokenize(left + seq![' ', op, ' '] + right) == seq![
            word_token(left),
            operator_token(seq![op])->0,
            word_token(right),
        ],
        plan_of(tokenize(left + seq![' ', op, ' '] + right)) == Ok::<_, PlanError>(
            (
                operand_of(word_token(left))->0,
                arithmetic_of(operator_token(seq![op])->0)->0,
                operand_of(word_token(right))->0,
            ),
        ),
{
    let e = Seq::<char>::empty();
    let init = (Seq::<OperatorModel>::empty(), e);
    let text = left + seq![' ', op, ' '] + right;
    let op_tok = operator_token(seq![op])->0;
    lemma_empty_is_no_float();
    lemma_scan_is_scan_from(text);
    assert(text =~= left + (seq![' '] + (seq![op] + (seq![' '] + right))));
    lemma_scan_from_append(init, left, seq![' '] + (seq![op] + (seq![' '] + right)));
    lemma_scan_operand_word(Seq::empty(), left);
    let s1 = scan_from(init, left);
    // after the left word and the first space
    let ops1 = seq![word_token(left)];
    lemma_scan_from_append(s1, seq![' '], seq![op] + (seq![' '] + right));
    reveal_with_fuel(scan_from, 2);
    assert(seq![' '].drop_last() =~= e);
    assert(seq![op].drop_last() =~= e);
    assert(e.push(op) =~= seq![op]);
    if left == score_word() {
        assert(Seq::<OperatorModel>::empty().push(OperatorModel::Score) =~= ops1);
    } else {
        assert(Seq::<OperatorModel>::empty().push(OperatorModel::Float(left)) =~= ops1);
    }
    let s2 = scan_from(s1, seq![' ']);
    assert(s2 == (ops1, e));
    lemma_scan_from_append(s2, seq![op], seq![' '] + right);
    let s3 = scan_from(s2, seq![op]);
    assert(s3 == (ops1.push(op_tok), e));
    lemma_scan_from_append(s3, seq![' '], right);
    let s4 = scan_from(s3, seq![' ']);
    assert(s4 == (ops1.push(op_tok), e));
    lemma_scan_operand_word(ops1.push(op_tok), right);
    assert(tokenize(text) =~= seq![word_token(left), op_tok, word_token(right)]);
}


/// Every number among `ops` is text that `str::parse::<f32>` accepts.
pub open spec fn numbers_are_literals(ops: Seq<OperatorModel>) -> bool {
    forall|i: int|
        0 <= i < ops.len() ==> (#[trigger] ops[i] matches OperatorModel::Float(text)
            ==> is_float_literal(text))
}

proof fn lemma_push_keeps_literals(ops: Seq<OperatorModel>, op: OperatorModel)
    requires
        numbers_are_literals(ops),
        op matches OperatorModel::Float(text) ==> is_float_literal(text),
    ensures
        numbers_are_literals(ops.push(op)),
{
    assert forall|i: int| 0 <= i < ops.push(op).len() implies (#[trigger] ops.push(
        op,
    )[i] matches OperatorModel::Float(text) ==> is_float_literal(text)) by {
        if i < ops.len() {
            assert(ops.push(op)[i] == ops[i]);
        }
    }
}

proof fn lemma_scan_keeps_literals(s: Seq<char>)
    ensures
        numbers_are_literals(scan(s).0),
    decreases s.len(),
{
    if s.len() > 0 {
        lemma_scan_keeps_literals(s.drop_last());
        let (ops, current) = scan(s.drop_last());
        let c = s.last();
        let flushed = if c == ' ' { flush(ops, current) } else { ops };
        if c == ' ' && is_float_literal(current) {
            lemma_push_keeps_literals(ops, OperatorModel::Float(current));
        }
        assert(numbers_are_literals(flushed));
        let pending = if c == ' ' { Seq::<char>::empty() } else { current.push(c) };
        match operator_token(pending) {
            Some(op) => {
                lemma_push_keeps_literals(flushed, op);
            },
            None => {},
        }
    }
}

/// Every number token of an expression is text that `str::parse::<f32>`
/// accepts, so a plan's numbers can always be read as `f32`.
pub proof fn lemma_numbers_are_literals(s: Seq<char>)
    ensures
        numbers_are_literals(tokenize(s)),
{
    lemma_scan_keeps_literals(s);
    let (ops, current) = scan(s);
    if is_float_literal(current) {
        lemma_push_keeps_literals(ops, OperatorModel::Float(current));
    }
}


proof fn lemma_flush_prefix(ops: Seq<OperatorModel>, x: Seq<OperatorModel>, current: Seq<char>)
    ensures
        flush(ops + x, current) == ops + flush(x, current),
{
    if is_float_literal(current) {
        assert((ops + x).push(OperatorModel::Float(current)) =~= ops + x.push(
            OperatorModel::Float(current),
        ));
    }
}

/// What has been found before does not change how the rest is scanned: it
/// only stands in front of what the rest gives.
proof fn lemma_scan_from_prefix(ops: Seq<OperatorModel>, current: Seq<char>, s: Seq<char>)
    ensures
        scan_from((ops, current), s) == (
            ops + scan_from((Seq::empty(), current), s).0,
            scan_from((Seq::empty(), current), s).1,
        ),
    decreases s.len(),
{
    if s.len() == 0 {
        assert(ops + Seq::<OperatorModel>::empty() =~= ops);
    } else {
        lemma_scan_from_prefix(ops, current, s.drop_last());
        let (x, cur) = scan_from((Seq::empty(), current), s.drop_last());
        let c = s.last();
        lemma_flush_prefix(ops, x, cur);
        let flushed = if c == ' ' { flush(x, cur) } else { x };
        let pending = if c == ' ' { Seq::<char>::empty() } else { cur.push(c) };
        match operator_token(pending) {
            Some(op) => {
                assert((ops + flushed).push(op) =~= ops + flushed.push(op));
            },
            None => {},
        }
    }
}

proof fn lemma_no_operator_in_nothing()
    ensures
        operator_token(Seq::<char>::empty()) is None,
{
    assert(seq!['+'].len() == 1 && seq!['-'].len() == 1 && seq!['/'].len() == 1
        && seq!['*'].len() == 1 && score_word().len() == 6);
}

/// A single space between two texts ends the first text's last word just as
/// the end of the text does: the tokens of the joined text are the tokens of
/// the first followed by those of the second. The empty text has no tokens.
pub proof fn lemma_tokenize_join(a: Seq<char>, b: Seq<char>)
    ensures
        tokenize(a + seq![' '] + b) == tokenize(a) + tokenize(b),
        tokenize(Seq::empty()) == Seq::<OperatorModel>::empty(),
{
    let e = Seq::<char>::empty();
    let init = (Seq::<OperatorModel>::empty(), e);
    lemma_empty_is_no_float();
    lemma_no_operator_in_nothing();
    assert(scan(e) == init);
    lemma_scan_is_scan_from(a + seq![' '] + b);
    lemma_scan_is_scan_from(a);
    lemma_scan_is_scan_from(b);
    lemma_scan_from_append(init, a + seq![' '], b);
    lemma_scan_from_append(init, a, seq![' ']);
    let sa = scan_from(init, a);
    reveal_with_fuel(scan_from, 2);
    assert(seq![' '].drop_last() =~= e);
    let after_space = scan_from(sa, seq![' ']);
    assert(after_space == (tokenize(a), e));
    lemma_scan_from_prefix(tokenize(a), e, b);
    lemma_flush_prefix(tokenize(a), scan(b).0, scan(b).1);
}


/// `side` is what token `t` stands for as a side of a computation: a number
/// with the token's own text, or the score for `$SCORE`.
pub open spec fn side_taken_from(t: OperatorModel, side: OperandModel) -> bool {
    match t {
        OperatorModel::Float(text) => side == OperandModel::Number(text),
        OperatorModel::Score => side is Score,
        _ => false,
    }
}

/// `a` is the arithmetic that operator token `t` names.
pub open spec fn arithmetic_taken_from(t: OperatorModel, a: Arithmetic) -> bool {
    match t {
        OperatorModel::Add => a == Arithmetic::Add,
        OperatorModel::Sub => a == Arithmetic::Sub,
        OperatorModel::Mul => a == Arithmetic::Mul,
        OperatorModel::Division => a == Arithmetic::Division,
        _ => false,
    }
}

/// `t` can be a side of a computation: a number or `$SCORE`.
pub open spec fn is_side(t: OperatorModel) -> bool {
    t is Float || t is Score
}

/// Which tokens have no plan, and why: no first token, a first token that
/// is no side, no third token, a third token that is no side, or a second
/// token that is no operator, checked in that order; any other tokens have a
/// plan.
pub proof fn lemma_plan_refused(ops: Seq<OperatorModel>)
    ensures
        ops.len() == 0 ==> plan_of(ops) == Err::<(OperandModel, Arithmetic, OperandModel), _>(
            PlanError::MissingToken(0),
        ),
        ops.len() >= 1 && !is_side(ops[0]) ==> plan_of(ops) == Err::<
            (OperandModel, Arithmetic, OperandModel),
            _,
        >(PlanError::BadStart),
        ops.len() >= 1 && is_side(ops[0]) && ops.len() < 3 ==> plan_of(ops) == Err::<
            (OperandModel, Arithmetic, OperandModel),
            _,
        >(PlanError::MissingToken(2)),
        ops.len() >= 3 && is_side(ops[0]) && !is_side(ops[2]) ==> plan_of(ops) == Err::<
            (OperandModel, Arithmetic, OperandModel),
            _,
        >(PlanError::BadEnd),
        ops.len() >= 3 && is_side(ops[0]) && is_side(ops[2]) && is_side(ops[1]) ==> plan_of(ops)
            == Err::<(OperandModel, Arithmetic, OperandModel), _>(PlanError::BadOperator),
        ops.len() >= 3 && is_side(ops[0]) && is_side(ops[2]) && !is_side(ops[1]) ==> plan_of(
            ops,
        ) is Ok,
{
}

/// A plan takes its parts from the tokens as they stand: its left side from
/// the first token, its operator from the second and its right side from
/// the third, a number keeping its text unchanged.
pub proof fn lemma_plan_takes_tokens(ops: Seq<OperatorModel>)
    ensures
        plan_of(ops) matches Ok((left, op, right)) ==> {
            &&& ops.len() >= 3
            &&& side_taken_from(ops[0], left)
            &&& arithmetic_taken_from(ops[1], op)
            &&& side_taken_from(ops[2], right)
        },
{
}


/// A text of one character reads as: its operator for `+`, `-`, `*` and
/// `/`; a number for a digit; nothing for a space. The text `$SCORE` reads as
/// the score.
pub proof fn lemma_single_tokens(c: char)
    ensures
        c == '+' ==> tokenize(seq![c]) == seq![OperatorModel::Add],
        c == '-' ==> tokenize(seq![c]) == seq![OperatorModel::Sub],
        c == '*' ==> tokenize(seq![c]) == seq![OperatorModel::Mul],
        c == '/' ==> tokenize(seq![c]) == seq![OperatorModel::Division],
        is_digit(c) ==> tokenize(seq![c]) == seq![OperatorModel::Float(seq![c])],
        c == ' ' ==> tokenize(seq![c]) == Seq::<OperatorModel>::empty(),
        tokenize(score_word()) == seq![OperatorModel::Score],
{
    let e = Seq::<char>::empty();
    lemma_empty_is_no_float();
    lemma_no_operator_in_nothing();
    reveal_with_fuel(scan, 2);
    assert(seq![c].drop_last() =~= e);
    assert(e.push(c) =~= seq![c]);
    assert(seq![c].last() == c);
    assert(seq!['+'][0] == '+' && seq!['-'][0] == '-' && seq!['/'][0] == '/' && seq!['*'][0]
        == '*');
    if c == '-' {
        assert(seq![c] != seq!['+']);
    }
    if c == '*' {
        assert(seq![c] != seq!['+'] && seq![c] != seq!['-'] && seq![c] != seq!['/']);
    }
    if c == '/' {
        assert(seq![c] != seq!['+'] && seq![c] != seq!['-']);
    }
    if is_digit(c) {
        assert(seq![c] != seq!['+'] && seq![c] != seq!['-'] && seq![c] != seq!['/'] && seq![c]
            != seq!['*']);
        assert(seq![c] != score_word());
        assert(seq![c].take(1) =~= seq![c]);
        assert(is_mantissa(seq![c].take(1), 1));
        assert(is_number(seq![c]));
        assert(Seq::<OperatorModel>::empty().push(OperatorModel::Float(seq![c])) =~= seq![
            OperatorModel::Float(seq![c]),
        ]);
    }
    lemma_scan_is_scan_from(score_word());
    lemma_scan_operand_word(Seq::empty(), score_word());
    assert(Seq::<OperatorModel>::empty().push(OperatorModel::Score) =~= seq![OperatorModel::Score]);
}

} // verus!
