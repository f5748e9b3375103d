use vstd::prelude::*;

verus! {

use crate::DiceExpression;

/// The ways a line can fail to parse as a dice expression.
#[derive(Debug, Clone, Copy, PartialEq, Eq, Structural)]
pub enum ParseError {
    /// The byte after the (possibly empty) dice-count digits is not `d`.
    MissingDice,
    /// The dice-count token is zero or does not fit in a `u32`.
    BadCount,
    /// The sides token is missing, zero, or does not fit in a `u32`.
    BadSides,
    /// The modifier token after the sign is missing or does not fit in an `i32`.
    BadModifier,
    /// Bytes are left over after a complete expression.
    TrailingInput,
}

/// A fully classified input line.
#[derive(Debug, Clone, Copy, PartialEq, Eq, Structural)]
pub enum Command {
    Roll(DiceExpression),
    Help,
    Quit,
}

/// ASCII whitespace: space, tab, line feed, vertical tab, form feed, carriage return.
pub open spec fn is_space(b: u8) -> bool {
    b == 32 || (9 <= b && b <= 13)
}

/// ASCII decimal digit.
pub open spec fn is_digit(b: u8) -> bool {
    48 <= b && b <= 57
}

/// ASCII lowercasing of one byte.
pub open spec fn lower_byte(b: u8) -> u8 {
    if 65 <= b && b <= 90 {
        (b + 32) as u8
    } else {
        b
    }
}

/// The input with its leading whitespace removed.
pub open spec fn trim_front(s: Seq<u8>) -> Seq<u8>
    decreases s.len(),
{
    if s.len() > 0 && is_space(s[0]) {
        trim_front(s.drop_first())
    } else {
        s
    }
}

/// The input with its trailing whitespace removed.
pub open spec fn trim_back(s: Seq<u8>) -> Seq<u8>
    decreases s.len(),
{
    if s.len() > 0 && is_space(s.last()) {
        trim_back(s.drop_last())
    } else {
        s
    }
}

/// The canonical form of an input line: surrounding whitespace trimmed,
/// then every byte lowercased (commands are case-insensitive).
pub open spec fn canon(s: Seq<u8>) -> Seq<u8> {
    trim_back(trim_front(s)).map_values(|b: u8| lower_byte(b))
}

/// The length of the longest prefix of decimal digits.
pub open spec fn digit_count(s: Seq<u8>) -> int
    decreases s.len(),
{
    if s.len() > 0 && is_digit(s[0]) {
        1 + digit_count(s.drop_first())
    } else {
        0
    }
}

/// The value of a sequence of decimal digits, most significant first.
pub open spec fn digits_val(s: Seq<u8>) -> int
    recommends
        forall|i: int| 0 <= i < s.len() ==> is_digit(s[i]),
    decreases s.len(),
{
    if s.len() == 0 {
        0
    } else {
        digits_val(s.drop_last()) * 10 + (s.last() - 48)
    }
}

/// A non-empty, all-digits token.
pub open spec fn is_digit_seq(s: Seq<u8>) -> bool {
    s.len() > 0 && forall|i: int| 0 <= i < s.len() ==> is_digit(#[trigger] s[i])
}

/// The bytes of the word `help`.
pub open spec fn help_word() -> Seq<u8> {
    seq![104u8, 101u8, 108u8, 112u8]
}

/// The bytes of the word `quit`.
pub open spec fn quit_word() -> Seq<u8> {
    seq![113u8, 117u8, 105u8, 116u8]
}

/// The bytes of the word `exit`.
pub open spec fn exit_word() -> Seq<u8> {
    seq![101u8, 120u8, 105u8, 116u8]
}

/// What parsing an already canonicalized dice expression yields.
///
/// The grammar is `[count] 'd' sides [('+' | '-') modifier]`: a possibly empty
/// run of count digits (a missing count defaults to 1), the letter `d`, a
/// non-empty run of sides digits, and optionally a sign with a non-empty run
/// of modifier digits. Counts and sides must be nonzero and fit in a `u32`;
/// the modifier magnitude must fit in an `i32`.
pub open spec fn spec_parse_expr(t: Seq<u8>) -> Result<DiceExpression, ParseError> {
    let nc = digit_count(t);
    if nc == t.len() || t[nc] != 100 {
        Err(ParseError::MissingDice)
    } else if nc > 0 && (digits_val(t.take(nc)) == 0 || digits_val(t.take(nc)) > u32::MAX) {
        Err(ParseError::BadCount)
    } else {
        let count = if nc == 0 { 1int } else { digits_val(t.take(nc)) };
        let u = t.skip(nc + 1);
        let ns = digit_count(u);
        if ns == 0 || digits_val(u.take(ns)) == 0 || digits_val(u.take(ns)) > u32::MAX {
            Err(ParseError::BadSides)
        } else {
            let sides = digits_val(u.take(ns));
            if ns == u.len() {
                Ok(DiceExpression { count: count as u32, sides: sides as u32, modifier: 0 })
            } else if u[ns] == 43 || u[ns] == 45 {
                let v = u.skip(ns + 1);
                let nm = digit_count(v);
                if nm == 0 {
                    Err(ParseError::BadModifier)
                } else if nm != v.len() {
                    Err(ParseError::TrailingInput)
                } else if digits_val(v) > i32::MAX {
                    Err(ParseError::BadModifier)
                } else {
                    let m = if u[ns] == 45 {
                        -digits_val(v)
                    } else {
                        digits_val(v)
                    };
                    Ok(DiceExpression { count: count as u32, sides: sides as u32, modifier: m as i32 })
                }
            } else {
                Err(ParseError::TrailingInput)
            }
        }
    }
}

/// What parsing a raw input line yields: after trimming and lowercasing,
/// `help` asks for usage, `quit` and `exit` end the session, and anything
/// else must be a dice expression.
pub open spec fn spec_parse_command(s: Seq<u8>) -> Result<Command, ParseError> {
    let t = canon(s);
    if t =~= help_word() {
        Ok(Command::Help)
    } else if t =~= quit_word() || t =~= exit_word() {
        Ok(Command::Quit)
    } else {
        match spec_parse_expr(t) {
            Ok(e) => Ok(Command::Roll(e)),
            Err(p) => Err(p),
        }
    }
}

/// Skipping `i` leading spaces, up to the first non-space, is exactly `trim_front`.
proof fn lemma_trim_front_at(s: Seq<u8>, i: int)
    requires
        0 <= i <= s.len(),
        forall|j: int| 0 <= j < i ==> is_space(#[trigger] s[j]),
        i == s.len() || !is_space(s[i]),
    ensures
        trim_front(s) == s.skip(i),
    decreases i,
{
    if i == 0 {
        assert(s.skip(0) =~= s);
    } else {
        lemma_trim_front_at(s.drop_first(), i - 1);
        assert(s.drop_first().skip(i - 1) =~= s.skip(i));
    }
}

/// Keeping the first `i` bytes, when all beyond them are spaces and the last
/// kept byte is not, is exactly `trim_back`.
proof fn lemma_trim_back_at(s: Seq<u8>, i: int)
    requires
        0 <= i <= s.len(),
        forall|j: int| i <= j < s.len() ==> is_space(#[trigger] s[j]),
        i == 0 || !is_space(s[i - 1]),
    ensures
        trim_back(s) == s.take(i),
    decreases s.len(),
{
    if i == s.len() {
        if s.len() == 0 || !is_space(s.last()) {
            assert(s.take(i) =~= s);
        } else {
            assert(!is_space(s[i - 1]));
            assert(false);
        }
    } else {
        assert(is_space(s.last()));
        lemma_trim_back_at(s.drop_last(), i);
        assert(s.drop_last().take(i) =~= s.take(i));
    }
}

/// A run of `i` digits followed by a non-digit (or the end) is exactly the
/// longest digit prefix.
proof fn lemma_digit_count_at(s: Seq<u8>, i: int)
    requires
        0 <= i <= s.len(),
        forall|j: int| 0 <= j < i ==> is_digit(#[trigger] s[j]),
        i == s.len() || !is_digit(s[i]),
    ensures
        digit_count(s) == i,
    decreases i,
{
    if i == 0 {
    } else {
        lemma_digit_count_at(s.drop_first(), i - 1);
    }
}

/// The value of a digit sequence is nonnegative, and grows by a factor of ten
/// with each appended digit.
proof fn lemma_digits_val_nonneg(s: Seq<u8>)
    requires
        forall|i: int| 0 <= i < s.len() ==> is_digit(#[trigger] s[i]),
    ensures
        digits_val(s) >= 0,
    decreases s.len(),
{
    if s.len() > 0 {
        lemma_digits_val_nonneg(s.drop_last());
    }
}

/// Whether one byte is ASCII whitespace.
fn is_space_x(b: u8) -> (r: bool)
    ensures
        r == is_space(b),
{
    b == 32 || (9 <= b && b <= 13)
}

/// Trim surrounding ASCII whitespace and lowercase every byte.
fn canonicalize(line: &[u8]) -> (t: Vec<u8>)
    ensures
        t@ == canon(line@),
{
    let mut start: usize = 0;
    while start < line.len() && is_space_x(line[start])
        invariant
            start <= line@.len(),
            forall|j: int| 0 <= j < start ==> is_space(#[trigger] line@[j]),
        decreases line@.len() - start,
    {
        start = start + 1;
    }
    let mut end: usize = line.len();
    while end > start && is_space_x(line[end - 1])
        invariant
            start <= end <= line@.len(),
            forall|j: int| end <= j < line@.len() ==> is_space(#[trigger] line@[j]),
        decreases end,
    {
        end = end - 1;
    }
    proof {
        lemma_trim_front_at(line@, start as int);
        lemma_trim_back_at(line@.skip(start as int), end - start);
        assert(line@.skip(start as int).take(end - start) =~= line@.subrange(
            start as int,
            end as int,
        ));
    }
    let mut out: Vec<u8> = Vec::new();
    let mut i: usize = start;
    while i < end
        invariant
            start <= i <= end <= line@.len(),
            out@.len() == i - start,
            forall|j: int| 0 <= j < out@.len() ==> #[trigger] out@[j] == lower_byte(line@[start + j]),
        decreases end - i,
    {
        let b = line[i];
        let lb = if 65 <= b && b <= 90 {
            b + 32
        } else {
            b
        };
        out.push(lb);
        i = i + 1;
    }
    proof {
        let trimmed = line@.subrange(start as int, end as int);
        assert(canon(line@) == trimmed.map_values(|b: u8| lower_byte(b)));
        assert forall|j: int| 0 <= j < out@.len() implies out@[j] == canon(line@)[j] by {
            assert(trimmed[j] == line@[start + j]);
        }
        assert(out@ =~= canon(line@));
    }
    out
}

/// Whether one byte is an ASCII decimal digit.
fn is_digit_x(b: u8) -> (r: bool)
    ensures
        r == is_digit(b),
{
    48 <= b && b <= 57
}

/// Scan the run of digits that starts at `from`. Returns the index just past
/// the run, and the run's value, exact when it fits in a `u32` and otherwise
/// capped just above `u32::MAX` (enough to reject it).
fn scan_number(t: &[u8], from: usize) -> (res: (usize, u64))
    requires
        from <= t@.len(),
    ensures
        from <= res.0 <= t@.len(),
        res.0 - from == digit_count(t@.skip(from as int)),
        forall|j: int| from <= j < res.0 ==> is_digit(#[trigger] t@[j]),
        digits_val(t@.subrange(from as int, res.0 as int)) <= u32::MAX ==> res.1 == digits_val(
            t@.subrange(from as int, res.0 as int),
        ),
        digits_val(t@.subrange(from as int, res.0 as int)) > u32::MAX ==> res.1 > u32::MAX,
{
    let mut i: usize = from;
    let mut val: u64 = 0;
    while i < t.len() && is_digit_x(t[i])
        invariant
            from <= i <= t@.len(),
            forall|j: int| from <= j < i ==> is_digit(#[trigger] t@[j]),
            val <= 0x1_0000_0000u64,
            digits_val(t@.subrange(from as int, i as int)) <= u32::MAX ==> val == digits_val(
                t@.subrange(from as int, i as int),
            ),
            digits_val(t@.subrange(from as int, i as int)) > u32::MAX ==> val == 0x1_0000_0000u64,
        decreases t@.len() - i,
    {
        let d = t[i] - 48;
        let nv = val * 10 + (d as u64);
        proof {
            let prev = t@.subrange(from as int, i as int);
            let cur = t@.subrange(from as int, i + 1);
            assert(cur.drop_last() =~= prev);
            assert(cur.last() == t@[i as int]);
            lemma_digits_val_nonneg(prev);
        }
        val = if nv > 0xFFFF_FFFFu64 {
            0x1_0000_0000u64
        } else {
            nv
        };
        i = i + 1;
    }
    proof {
        lemma_digit_count_at(t@.skip(from as int), i - from);
    }
    (i, val)
}

/// Parse an already canonicalized line as a dice expression, exactly as
/// `spec_parse_expr` describes.
fn parse_expr(t: &[u8]) -> (r: Result<DiceExpression, ParseError>)
    ensures
        r == spec_parse_expr(t@),
{
    proof {
        assert(t@.skip(0) =~= t@);
    }
    let (nc_end, cval) = scan_number(t, 0);
    let ghost nc = digit_count(t@);
    if nc_end == t.len() {
        return Err(ParseError::MissingDice);
    }
    if t[nc_end] != 100 {
        return Err(ParseError::MissingDice);
    }
    proof {
        assert(t@.take(nc) =~= t@.subrange(0, nc_end as int));
        lemma_digits_val_nonneg(t@.take(nc));
    }
    if nc_end > 0 && (cval == 0 || cval > 0xFFFF_FFFFu64) {
        return Err(ParseError::BadCount);
    }
    let count: u32 = if nc_end == 0 {
        1
    } else {
        cval as u32
    };
    let (ns_end, sval) = scan_number(t, nc_end + 1);
    let ghost u = t@.skip(nc_end + 1);
    let ghost ns = digit_count(u);
    proof {
        assert(u.take(ns) =~= t@.subrange(nc_end + 1, ns_end as int));
        lemma_digits_val_nonneg(u.take(ns));
    }
    if ns_end == nc_end + 1 || sval == 0 || sval > 0xFFFF_FFFFu64 {
        return Err(ParseError::BadSides);
    }
    let sides: u32 = sval as u32;
    if ns_end == t.len() {
        return Ok(DiceExpression { count, sides, modifier: 0 });
    }
    let sign = t[ns_end];
    if sign == 43 || sign == 45 {
        let (nm_end, mval) = scan_number(t, ns_end + 1);
        let ghost v = u.skip(ns + 1);
        proof {
            assert(v =~= t@.skip(ns_end + 1));
        }
        if nm_end == ns_end + 1 {
            return Err(ParseError::BadModifier);
        }
        if nm_end != t.len() {
            return Err(ParseError::TrailingInput);
        }
        proof {
            assert(v =~= t@.subrange(ns_end + 1, nm_end as int));
            lemma_digits_val_nonneg(v);
        }
        if mval > 0x7FFF_FFFFu64 {
            return Err(ParseError::BadModifier);
        }
        let m: i32 = if sign == 45 {
            -(mval as i32)
        } else {
            mval as i32
        };
        return Ok(DiceExpression { count, sides, modifier: m });
    }
    Err(ParseError::TrailingInput)
}

/// Parse a raw input line into a command, exactly as `spec_parse_command`
/// describes: trim and lowercase, recognize the reserved words, otherwise
/// parse a dice expression.
pub fn parse_command(line: &[u8]) -> (r: Result<Command, ParseError>)
    ensures
        r == spec_parse_command(line@),
{
    let t = canonicalize(line);
    if eq4(&t, 104, 101, 108, 112) {
        Ok(Command::Help)
    } else if eq4(&t, 113, 117, 105, 116) || eq4(&t, 101, 120, 105, 116) {
        Ok(Command::Quit)
    } else {
        match parse_expr(t.as_slice()) {
            Ok(e) => Ok(Command::Roll(e)),
            Err(p) => Err(p),
        }
    }
}

/// The longest digit prefix is within bounds and consists of digits.
proof fn lemma_digit_count_digits(s: Seq<u8>)
    ensures
        0 <= digit_count(s) <= s.len(),
        forall|j: int| 0 <= j < digit_count(s) ==> is_digit(#[trigger] s[j]),
    decreases s.len(),
{
    if s.len() > 0 && is_digit(s[0]) {
        lemma_digit_count_digits(s.drop_first());
        assert forall|j: int| 0 <= j < digit_count(s) implies is_digit(s[j]) by {
            if j > 0 {
                assert(is_digit(s.drop_first()[j - 1]));
            }
        }
    }
}

/// Every dice expression that parsing accepts is well formed: it rolls at
/// least one die with at least one side.
pub proof fn lemma_parse_wf(s: Seq<u8>)
    ensures
        spec_parse_command(s) matches Ok(Command::Roll(e)) ==> e.wf(),
{
    let t = canon(s);
    let nc = digit_count(t);
    lemma_digit_count_digits(t);
    lemma_digits_val_nonneg(t.take(nc));
    let u = t.skip(nc + 1);
    let ns = digit_count(u);
    lemma_digit_count_digits(u);
    lemma_digits_val_nonneg(u.take(ns));
}

/// Parsing is a function of the input text alone: the same literal text
/// always parses to the same command, so parsing twice yields identical
/// results while only the rolled values may vary between runs.
pub proof fn lemma_parse_deterministic(a: Seq<u8>, b: Seq<u8>)
    requires
        a =~= b,
    ensures
        spec_parse_command(a) == spec_parse_command(b),
{
}

/// The text of a dice expression built from its tokens: the count digits,
/// the letter `d`, the sides digits, and optionally a sign (`true` for `-`)
/// with the modifier digits.
pub open spec fn render_expr(cd: Seq<u8>, sd: Seq<u8>, sign_neg: Option<bool>, md: Seq<u8>) -> Seq<
    u8,
> {
    match sign_neg {
        None => cd + seq![100u8] + sd,
        Some(neg) => cd + seq![100u8] + sd + seq![if neg { 45u8 } else { 43u8 }] + md,
    }
}

/// Canonicalization leaves a line alone when it has no surrounding
/// whitespace and no uppercase letters.
proof fn lemma_canon_id(s: Seq<u8>)
    requires
        s.len() > 0,
        !is_space(s[0]),
        !is_space(s.last()),
        forall|i: int| 0 <= i < s.len() ==> !(65 <= #[trigger] s[i] && s[i] <= 90),
    ensures
        canon(s) == s,
{
    assert(trim_front(s) == s);
    assert(trim_back(s) == s);
    assert(s.map_values(|b: u8| lower_byte(b)) =~= s);
}

/// Every valid expression `NdS`, `NdS+M`, `NdS-M` parses to exactly the
/// triple (N, S, +M / -M / 0): the count and sides tokens become the count
/// and sides, and the modifier token, when present, becomes the modifier
/// with the written sign, and otherwise zero.
pub proof fn lemma_parser_yields_components(
    cd: Seq<u8>,
    sd: Seq<u8>,
    sign_neg: Option<bool>,
    md: Seq<u8>,
)
    requires
        is_digit_seq(cd),
        1 <= digits_val(cd) <= u32::MAX,
        is_digit_seq(sd),
        1 <= digits_val(sd) <= u32::MAX,
        sign_neg is Some ==> is_digit_seq(md) && digits_val(md) <= i32::MAX,
    ensures
        spec_parse_command(render_expr(cd, sd, sign_neg, md)) == Ok::<Command, ParseError>(
            Command::Roll(
                DiceExpression {
                    count: digits_val(cd) as u32,
                    sides: digits_val(sd) as u32,
                    modifier: (match sign_neg {
                        None => 0int,
                        Some(true) => -digits_val(md),
                        Some(false) => digits_val(md),
                    }) as i32,
                },
            ),
        ),
{
    let s = render_expr(cd, sd, sign_neg, md);
    if sign_neg is Some {
        lemma_digits_val_nonneg(md);
    }
    // No byte of the rendered text is whitespace or uppercase, so
    // canonicalization leaves it alone.
    assert(s[0] == cd[0]);
    assert(is_digit(s[0]));
    match sign_neg {
        None => {
            assert(s.last() == sd.last());
        },
        Some(_neg) => {
            assert(s.last() == md.last());
            assert(is_digit(s.last()));
        },
    }
    assert forall|i: int| 0 <= i < s.len() implies !(65 <= #[trigger] s[i] && s[i] <= 90) by {
        lemma_render_byte(cd, sd, sign_neg, md, i);
    }
    lemma_canon_id(s);
    // A digit in front rules out every reserved word.
    assert(!(s =~= help_word())) by {
        if s =~= help_word() {
            assert(s[0] == 104);
        }
    }
    assert(!(s =~= quit_word())) by {
        if s =~= quit_word() {
            assert(s[0] == 113);
        }
    }
    assert(!(s =~= exit_word())) by {
        if s =~= exit_word() {
            assert(s[0] == 101);
        }
    }
    // The count token is the longest digit prefix, followed by `d`.
    let nc = cd.len() as int;
    assert forall|j: int| 0 <= j < nc implies is_digit(#[trigger] s[j]) by {
        assert(s[j] == cd[j]);
    }
    assert(s[nc] == 100);
    assert(!is_digit(s[nc]));
    lemma_digit_count_at(s, nc);
    assert(s.take(nc) =~= cd);
    // The rest after `d` starts with the sides token.
    let u = s.skip(nc + 1);
    let ns = sd.len() as int;
    assert forall|j: int| 0 <= j < ns implies is_digit(#[trigger] u[j]) by {
        assert(u[j] == sd[j]);
    }
    match sign_neg {
        None => {
            assert(u =~= sd);
            lemma_digit_count_at(u, ns);
            assert(u.take(ns) =~= sd);
            assert(ns == u.len());
        },
        Some(neg) => {
            let sign_byte = if neg {
                45u8
            } else {
                43u8
            };
            assert(u =~= sd + seq![sign_byte] + md);
            assert(u[ns] == sign_byte);
            assert(!is_digit(u[ns]));
            lemma_digit_count_at(u, ns);
            assert(u.take(ns) =~= sd);
            // The modifier token fills everything after the sign.
            let v = u.skip(ns + 1);
            assert(v =~= md);
            lemma_digit_count_at(v, md.len() as int);
            assert(digit_count(v) == v.len());
        },
    }
}

/// Each byte of a rendered expression is a digit, the letter `d`, or a sign,
/// none of which is an uppercase letter.
proof fn lemma_render_byte(
    cd: Seq<u8>,
    sd: Seq<u8>,
    sign_neg: Option<bool>,
    md: Seq<u8>,
    i: int,
)
    requires
        is_digit_seq(cd),
        is_digit_seq(sd),
        sign_neg is Some ==> is_digit_seq(md),
        0 <= i < render_expr(cd, sd, sign_neg, md).len(),
    ensures
        !(65 <= render_expr(cd, sd, sign_neg, md)[i] <= 90),
{
    let s = render_expr(cd, sd, sign_neg, md);
    if i < cd.len() {
        assert(s[i] == cd[i]);
    } else if i == cd.len() {
        assert(s[i] == 100);
    } else if i < cd.len() + 1 + sd.len() {
        assert(s[i] == sd[i - cd.len() - 1]);
    } else {
        match sign_neg {
            None => {},
            Some(neg) => {
                if i == cd.len() + 1 + sd.len() {
                    assert(s[i] == if neg {
                        45u8
                    } else {
                        43u8
                    });
                } else {
                    assert(s[i] == md[i - cd.len() - 1 - sd.len() - 1]);
                }
            },
        }
    }
}

/// Whether the buffer holds exactly the four given bytes.
fn eq4(t: &Vec<u8>, b0: u8, b1: u8, b2: u8, b3: u8) -> (r: bool)
    ensures
        r <==> t@ =~= seq![b0, b1, b2, b3],
{
    let r = t.len() == 4 && t[0] == b0 && t[1] == b1 && t[2] == b2 && t[3] == b3;
    proof {
        let w = seq![b0, b1, b2, b3];
        if r {
            assert(t@ =~= w);
        } else if t@ =~= w {
            assert(t@.len() == 4);
            assert(t@[0] == b0 && t@[1] == b1 && t@[2] == b2 && t@[3] == b3);
            assert(false);
        }
    }
    r
}

} // verus!
