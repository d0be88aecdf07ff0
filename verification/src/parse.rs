use vstd::prelude::*;
use vstd::string::StrSliceExecFns;

verus! {

/// A structured move command, one variant per grammar rule.
#[derive(Clone, Copy, Debug, PartialEq, Eq, Structural)]
pub enum ParsedMove {
    Undo,
    Quit,
    Cycle,
    RevealNextOfStack,
    MoveFromStackToPile(u8),
    MoveFromStackToAce(u8),
    MoveFromPileToPile { from: u8, to: u8, amount: u8 },
    MoveFromPileToAce { pile: u8, ace: u8 },
    MoveFromAceToPile { ace: u8, pile: u8 },
}

/// A structured move the engine can be handed directly: every index it
/// carries already lies inside its structural range. The parser only
/// produces such moves; the tableau-to-tableau move carries no obligation
/// here because the engine checks its indices itself.
pub open spec fn pm_wf(pm: ParsedMove) -> bool {
    match pm {
        ParsedMove::MoveFromStackToPile(p) => p < 7,
        ParsedMove::MoveFromStackToAce(a) => a < 4,
        ParsedMove::MoveFromPileToAce { pile, ace } => pile < 7 && ace < 4,
        ParsedMove::MoveFromAceToPile { ace, pile } => pile < 7 && ace < 4,
        _ => true,
    }
}

/// The precise reason a command text was refused.
#[derive(Clone, Copy, Debug, PartialEq, Eq, Structural)]
pub enum CustomErrorKind {
    /// No grammar rule matched the input.
    Syntax,
    /// A rule matched but did not consume the whole input.
    InputHadLeftovers,
    /// The same tableau column was named as source and destination.
    RepeatedSelection,
    /// A tableau index was not below 7.
    OutOfRangePiles(usize),
    /// A foundation index was not below 4.
    OutOfRangeAces(usize),
    /// A move amount did not fit the move's numeric type.
    AmountTooLarge(usize),
}

/// A parse refusal, carrying the reason.
#[derive(Clone, Copy, Debug, PartialEq, Eq, Structural)]
pub struct CustomError {
    pub kind: CustomErrorKind,
}

/// A parse refusal as handed back to the caller of the entry point,
/// keeping the offending input text.
#[derive(Clone, Debug, PartialEq, Eq)]
pub struct ParsingError {
    pub input: String,
    pub kind: CustomErrorKind,
}

/// The whitespace the command reader strips from both ends of a line.
pub open spec fn is_space_char(c: char) -> bool {
    c == ' ' || c == '\t' || c == '\n' || c == '\r' || c == '\u{b}' || c == '\u{c}'
}

/// Whether `c` is stripped from the ends of a command line.
fn is_space(c: char) -> (r: bool)
    ensures
        r == is_space_char(c),
{
    c == ' ' || c == '\t' || c == '\n' || c == '\r' || c == '\u{b}' || c == '\u{c}'
}

/// `s` without its leading whitespace.
pub open spec fn spec_trim_front(s: Seq<char>) -> Seq<char>
    decreases s.len(),
{
    if s.len() > 0 && is_space_char(s[0]) {
        spec_trim_front(s.drop_first())
    } else {
        s
    }
}

/// `s` without its trailing whitespace.
pub open spec fn spec_trim_back(s: Seq<char>) -> Seq<char>
    decreases s.len(),
{
    if s.len() > 0 && is_space_char(s.last()) {
        spec_trim_back(s.drop_last())
    } else {
        s
    }
}

/// `s` without whitespace at either end.
pub open spec fn spec_trim(s: Seq<char>) -> Seq<char> {
    spec_trim_back(spec_trim_front(s))
}

proof fn lemma_trim_front_at(s: Seq<char>, k: int)
    requires
        0 <= k <= s.len(),
        forall|i: int| 0 <= i < k ==> is_space_char(#[trigger] s[i]),
        k < s.len() ==> !is_space_char(s[k]),
    ensures
        spec_trim_front(s) == s.subrange(k, s.len() as int),
    decreases k,
{
    if k == 0 {
        assert(s.subrange(0, s.len() as int) =~= s);
    } else {
        let d = s.drop_first();
        assert(is_space_char(s[0]));
        lemma_trim_front_at(d, k - 1);
        assert(d.subrange(k - 1, d.len() as int) =~= s.subrange(k, s.len() as int));
    }
}

proof fn lemma_trim_back_at(s: Seq<char>, k: int)
    requires
        0 <= k <= s.len(),
        forall|i: int| k <= i < s.len() ==> is_space_char(#[trigger] s[i]),
        k > 0 ==> !is_space_char(s[k - 1]),
    ensures
        spec_trim_back(s) == s.subrange(0, k),
    decreases s.len() - k,
{
    if k == s.len() {
        if k > 0 {
            assert(s.subrange(0, k) =~= s);
        } else {
            assert(s.subrange(0, 0) =~= s);
        }
    } else {
        let d = s.drop_last();
        assert(is_space_char(s.last()));
        lemma_trim_back_at(d, k);
        assert(d.subrange(0, k) =~= s.subrange(0, k));
    }
}

/// The characters of `s`, in order.
fn chars_of(s: &str) -> (v: Vec<char>)
    ensures
        v@ == s@,
{
    let n = s.unicode_len();
    let mut v: Vec<char> = Vec::new();
    let mut i: usize = 0;
    while i < n
        invariant
            i <= n,
            n == s@.len(),
            v@ == s@.take(i as int),
        decreases n - i,
    {
        v.push(s.get_char(i));
        i = i + 1;
        proof {
            assert(v@ =~= s@.take(i as int));
        }
    }
    proof {
        assert(s@.take(n as int) =~= s@);
    }
    v
}

/// The slice of `s` with whitespace stripped from both ends.
fn trimmed_chars(s: &Vec<char>) -> (t: Vec<char>)
    ensures
        t@ == spec_trim(s@),
{
    let n = s.len();
    let mut start: usize = 0;
    while start < n && is_space(s[start])
        invariant
            start <= n,
            n == s@.len(),
            forall|i: int| 0 <= i < start ==> is_space_char(#[trigger] s@[i]),
        decreases n - start,
    {
        start = start + 1;
    }
    let mut end: usize = n;
    while end > start && is_space(s[end - 1])
        invariant
            start <= end <= n,
            n == s@.len(),
            forall|i: int| end <= i < n ==> is_space_char(#[trigger] s@[i]),
        decreases end,
    {
        end = end - 1;
    }
    let mut t: Vec<char> = Vec::new();
    let mut i: usize = start;
    while i < end
        invariant
            start <= i <= end <= n,
            n == s@.len(),
            t@ == s@.subrange(start as int, i as int),
        decreases end - i,
    {
        t.push(s[i]);
        i = i + 1;
        proof {
            assert(t@ =~= s@.subrange(start as int, i as int));
        }
    }
    proof {
        lemma_trim_front_at(s@, start as int);
        let front = s@.subrange(start as int, n as int);
        lemma_trim_back_at(front, end - start);
        assert(front.subrange(0, end - start) =~= s@.subrange(start as int, end as int));
        assert(t@ =~= spec_trim(s@));
    }
    t
}

/// Whether `c` is a decimal digit.
pub open spec fn spec_digit(c: char) -> bool {
    48 <= c as u32 <= 57
}

/// The value of the digit `c`.
pub open spec fn digit_val(c: char) -> int {
    c as u32 - 48
}

/// The first position at or after `pos` that does not hold a digit.
pub open spec fn digits_end(s: Seq<char>, pos: int) -> int
    decreases s.len() - pos,
{
    if pos < s.len() && spec_digit(s[pos]) {
        digits_end(s, pos + 1)
    } else {
        pos
    }
}

/// The value of the digit run `s[pos .. end)`.
pub open spec fn digits_value(s: Seq<char>, pos: int, end: int) -> int
    decreases end - pos,
{
    if pos >= end {
        0
    } else {
        digits_value(s, pos, end - 1) * 10 + digit_val(s[end - 1])
    }
}

proof fn lemma_digits_end_props(s: Seq<char>, pos: int)
    requires
        0 <= pos <= s.len(),
    ensures
        pos <= digits_end(s, pos) <= s.len(),
        forall|i: int| pos <= i < digits_end(s, pos) ==> spec_digit(#[trigger] s[i]),
        digits_end(s, pos) < s.len() ==> !spec_digit(s[digits_end(s, pos)]),
    decreases s.len() - pos,
{
    if pos < s.len() && spec_digit(s[pos]) {
        lemma_digits_end_props(s, pos + 1);
    }
}

proof fn lemma_digits_end_at(s: Seq<char>, pos: int, k: int)
    requires
        0 <= pos <= k <= s.len(),
        forall|i: int| pos <= i < k ==> spec_digit(#[trigger] s[i]),
        k < s.len() ==> !spec_digit(s[k]),
    ensures
        digits_end(s, pos) == k,
    decreases k - pos,
{
    if pos < k {
        lemma_digits_end_at(s, pos + 1, k);
    }
}

proof fn lemma_digits_value_nonneg(s: Seq<char>, pos: int, end: int)
    requires
        pos <= end,
        forall|i: int| pos <= i < end ==> spec_digit(#[trigger] s[i]),
    ensures
        digits_value(s, pos, end) >= 0,
    decreases end - pos,
{
    if pos < end {
        lemma_digits_value_nonneg(s, pos, end - 1);
    }
}

proof fn lemma_digits_value_mono(s: Seq<char>, pos: int, e1: int, e2: int)
    requires
        pos <= e1 <= e2,
        forall|i: int| pos <= i < e2 ==> spec_digit(#[trigger] s[i]),
    ensures
        digits_value(s, pos, e1) <= digits_value(s, pos, e2),
    decreases e2 - e1,
{
    if e1 < e2 {
        lemma_digits_value_mono(s, pos, e1, e2 - 1);
        lemma_digits_value_nonneg(s, pos, e2 - 1);
    }
}

/// The result of reading an unsigned number at `pos`: the position after
/// the digit run and its value, unless there is no digit or the value
/// does not fit a 32-bit word.
pub open spec fn spec_parse_u32(s: Seq<char>, pos: int) -> Option<(int, u32)> {
    let e = digits_end(s, pos);
    if e == pos {
        None
    } else if digits_value(s, pos, e) > u32::MAX {
        None
    } else {
        Some((e, digits_value(s, pos, e) as u32))
    }
}

/// Read an unsigned decimal number, as many digits as there are; refuse
/// an empty digit run and a value beyond 32 bits.
fn parse_u32(s: &Vec<char>, pos: usize) -> (r: Option<(usize, u32)>)
    requires
        pos <= s@.len(),
    ensures
        match r {
            Some((p2, v)) => spec_parse_u32(s@, pos as int) == Some((p2 as int, v)) && pos <= p2
                <= s@.len(),
            None => spec_parse_u32(s@, pos as int) is None,
        },
{
    proof {
        lemma_digits_end_props(s@, pos as int);
    }
    let ghost de = digits_end(s@, pos as int);
    let mut i: usize = pos;
    let mut val: u64 = 0;
    loop
        invariant
            de == digits_end(s@, pos as int),
            pos <= i <= s@.len(),
            i <= de <= s@.len(),
            forall|j: int| pos <= j < de ==> spec_digit(#[trigger] s@[j]),
            de < s@.len() ==> !spec_digit(s@[de]),
            val == digits_value(s@, pos as int, i as int),
            val <= u32::MAX,
        ensures
            i == de,
            val == digits_value(s@, pos as int, de),
            val <= u32::MAX,
        decreases s@.len() - i,
    {
        if i >= s.len() {
            proof {
                assert(i == de);
            }
            break ;
        }
        let u = s[i] as u32;
        if u < 48 || u > 57 {
            proof {
                if i < de {
                    assert(spec_digit(s@[i as int]));
                }
                assert(i == de);
            }
            break ;
        }
        let d = (u - 48) as u64;
        proof {
            assert(spec_digit(s@[i as int]));
            assert(i < de);
            assert(d == digit_val(s@[i as int]));
        }
        val = val * 10 + d;
        i = i + 1;
        proof {
            assert(val == digits_value(s@, pos as int, i as int));
        }
        if val > u32::MAX as u64 {
            proof {
                lemma_digits_value_mono(s@, pos as int, i as int, de);
                assert(digits_value(s@, pos as int, de) > u32::MAX);
                assert(spec_parse_u32(s@, pos as int) is None);
            }
            return None;
        }
    }
    if i == pos {
        return None;
    }
    Some((i, val as u32))
}

/// The grammar rule for the move prefix: `m;` or a bare `m`.
pub open spec fn spec_move_prefix(s: Seq<char>, pos: int) -> Option<int> {
    if pos + 2 <= s.len() && s[pos] == 'm' && s[pos + 1] == ';' {
        Some(pos + 2)
    } else if pos < s.len() && s[pos] == 'm' {
        Some(pos + 1)
    } else {
        None
    }
}

/// The rule for drawing from the stock: `next` or `n`.
pub open spec fn spec_stack_revealing(s: Seq<char>, pos: int) -> Result<
    (int, ParsedMove),
    CustomErrorKind,
> {
    if pos + 4 <= s.len() && s[pos] == 'n' && s[pos + 1] == 'e' && s[pos + 2] == 'x' && s[pos + 3]
        == 't' {
        Ok((pos + 4, ParsedMove::RevealNextOfStack))
    } else if pos < s.len() && s[pos] == 'n' {
        Ok((pos + 1, ParsedMove::RevealNextOfStack))
    } else {
        Err(CustomErrorKind::Syntax)
    }
}

/// The rule for the undo command: `undo` or `u`.
pub open spec fn spec_undo(s: Seq<char>, pos: int) -> Result<(int, ParsedMove), CustomErrorKind> {
    if pos + 4 <= s.len() && s[pos] == 'u' && s[pos + 1] == 'n' && s[pos + 2] == 'd' && s[pos + 3]
        == 'o' {
        Ok((pos + 4, ParsedMove::Undo))
    } else if pos < s.len() && s[pos] == 'u' {
        Ok((pos + 1, ParsedMove::Undo))
    } else {
        Err(CustomErrorKind::Syntax)
    }
}

/// The rule for recycling the stock: `cycle`.
pub open spec fn spec_cycle(s: Seq<char>, pos: int) -> Result<(int, ParsedMove), CustomErrorKind> {
    if pos + 5 <= s.len() && s[pos] == 'c' && s[pos + 1] == 'y' && s[pos + 2] == 'c' && s[pos + 3]
        == 'l' && s[pos + 4] == 'e' {
        Ok((pos + 5, ParsedMove::Cycle))
    } else {
        Err(CustomErrorKind::Syntax)
    }
}

/// The rule for leaving the game: `quit` or `q`.
pub open spec fn spec_quit(s: Seq<char>, pos: int) -> Result<(int, ParsedMove), CustomErrorKind> {
    if pos + 4 <= s.len() && s[pos] == 'q' && s[pos + 1] == 'u' && s[pos + 2] == 'i' && s[pos + 3]
        == 't' {
        Ok((pos + 4, ParsedMove::Quit))
    } else if pos < s.len() && s[pos] == 'q' {
        Ok((pos + 1, ParsedMove::Quit))
    } else {
        Err(CustomErrorKind::Syntax)
    }
}

/// The rule for `s;X`: stock top to tableau column `X`, `X` below 7.
pub open spec fn spec_stack_to_pile(s: Seq<char>, pos: int) -> Result<
    (int, ParsedMove),
    CustomErrorKind,
> {
    if pos + 2 <= s.len() && s[pos] == 's' && s[pos + 1] == ';' {
        match spec_parse_u32(s, pos + 2) {
            Some((p2, n)) => if n >= 7 {
                Err(CustomErrorKind::OutOfRangePiles(n as usize))
            } else {
                Ok((p2, ParsedMove::MoveFromStackToPile(n as u8)))
            },
            None => Err(CustomErrorKind::Syntax),
        }
    } else {
        Err(CustomErrorKind::Syntax)
    }
}

/// The rule for `s;aX`: stock top to foundation `X`, `X` below 4.
pub open spec fn spec_stack_to_ace(s: Seq<char>, pos: int) -> Result<
    (int, ParsedMove),
    CustomErrorKind,
> {
    if pos + 3 <= s.len() && s[pos] == 's' && s[pos + 1] == ';' && s[pos + 2] == 'a' {
        match spec_parse_u32(s, pos + 3) {
            Some((p2, n)) => if n >= 4 {
                Err(CustomErrorKind::OutOfRangeAces(n as usize))
            } else {
                Ok((p2, ParsedMove::MoveFromStackToAce(n as u8)))
            },
            None => Err(CustomErrorKind::Syntax),
        }
    } else {
        Err(CustomErrorKind::Syntax)
    }
}

/// The rule for `mX;Y;N` (or `m;X;Y;N`): a block of `N` cards from column
/// `X` to column `Y`; the columns distinct and below 7, the amount under
/// the byte ceiling.
pub open spec fn spec_pile_to_pile(s: Seq<char>, pos: int) -> Result<
    (int, ParsedMove),
    CustomErrorKind,
> {
    match spec_move_prefix(s, pos) {
        None => Err(CustomErrorKind::Syntax),
        Some(p1) => match spec_parse_u32(s, p1) {
            None => Err(CustomErrorKind::Syntax),
            Some((p2, x)) => if p2 < s.len() && s[p2] == ';' {
                match spec_parse_u32(s, p2 + 1) {
                    None => Err(CustomErrorKind::Syntax),
                    Some((p3, y)) => if p3 < s.len() && s[p3] == ';' {
                        match spec_parse_u32(s, p3 + 1) {
                            None => Err(CustomErrorKind::Syntax),
                            Some((p4, n)) => if x >= 7 || y >= 7 {
                                Err(
                                    CustomErrorKind::OutOfRangePiles(
                                        (if x >= y {
                                            x
                                        } else {
                                            y
                                        }) as usize,
                                    ),
                                )
                            } else if x == y {
                                Err(CustomErrorKind::RepeatedSelection)
                            } else if n >= 255 {
                                Err(CustomErrorKind::AmountTooLarge(n as usize))
                            } else {
                                Ok(
                                    (
                                        p4,
                                        ParsedMove::MoveFromPileToPile {
                                            from: x as u8,
                                            to: y as u8,
                                            amount: n as u8,
                                        },
                                    ),
                                )
                            },
                        }
                    } else {
                        Err(CustomErrorKind::Syntax)
                    },
                }
            } else {
                Err(CustomErrorKind::Syntax)
            },
        },
    }
}

/// The rule for `mX;aY` (or `m;X;aY`): the tail card of column `X` to
/// foundation `Y`.
pub open spec fn spec_pile_to_aces(s: Seq<char>, pos: int) -> Result<
    (int, ParsedMove),
    CustomErrorKind,
> {
    match spec_move_prefix(s, pos) {
        None => Err(CustomErrorKind::Syntax),
        Some(p1) => match spec_parse_u32(s, p1) {
            None => Err(CustomErrorKind::Syntax),
            Some((p2, pile)) => if p2 + 2 <= s.len() && s[p2] == ';' && s[p2 + 1] == 'a' {
                match spec_parse_u32(s, p2 + 2) {
                    None => Err(CustomErrorKind::Syntax),
                    Some((p3, ace)) => if pile >= 7 {
                        Err(CustomErrorKind::OutOfRangePiles(pile as usize))
                    } else if ace >= 4 {
                        Err(CustomErrorKind::OutOfRangeAces(ace as usize))
                    } else {
                        Ok(
                            (
                                p3,
                                ParsedMove::MoveFromPileToAce {
                                    pile: pile as u8,
                                    ace: ace as u8,
                                },
                            ),
                        )
                    },
                }
            } else {
                Err(CustomErrorKind::Syntax)
            },
        },
    }
}

/// The rule for `maY;X` (or `m;aY;X`): the top card of foundation `Y` to
/// column `X`.
pub open spec fn spec_aces_to_pile(s: Seq<char>, pos: int) -> Result<
    (int, ParsedMove),
    CustomErrorKind,
> {
    match spec_move_prefix(s, pos) {
        None => Err(CustomErrorKind::Syntax),
        Some(p1) => if p1 < s.len() && s[p1] == 'a' {
            match spec_parse_u32(s, p1 + 1) {
                None => Err(CustomErrorKind::Syntax),
                Some((p2, ace)) => if p2 < s.len() && s[p2] == ';' {
                    match spec_parse_u32(s, p2 + 1) {
                        None => Err(CustomErrorKind::Syntax),
                        Some((p3, pile)) => if pile >= 7 {
                            Err(CustomErrorKind::OutOfRangePiles(pile as usize))
                        } else if ace >= 4 {
                            Err(CustomErrorKind::OutOfRangeAces(ace as usize))
                        } else {
                            Ok(
                                (
                                    p3,
                                    ParsedMove::MoveFromAceToPile {
                                        ace: ace as u8,
                                        pile: pile as u8,
                                    },
                                ),
                            )
                        },
                    }
                } else {
                    Err(CustomErrorKind::Syntax)
                },
            }
        } else {
            Err(CustomErrorKind::Syntax)
        },
    }
}

/// Combine two grammar rules: the first match wins; of two refusals the
/// earlier informative one is kept.
pub open spec fn spec_alt(
    a: Result<(int, ParsedMove), CustomErrorKind>,
    b: Result<(int, ParsedMove), CustomErrorKind>,
) -> Result<(int, ParsedMove), CustomErrorKind> {
    match a {
        Ok(r) => Ok(r),
        Err(ka) => match b {
            Ok(r) => Ok(r),
            Err(kb) => Err(
                if ka is Syntax {
                    kb
                } else {
                    ka
                },
            ),
        },
    }
}

/// All grammar rules, tried in their fixed order on the whole trimmed line.
pub open spec fn spec_alternatives(s: Seq<char>) -> Result<(int, ParsedMove), CustomErrorKind> {
    spec_alt(
        spec_stack_revealing(s, 0),
        spec_alt(
            spec_stack_to_pile(s, 0),
            spec_alt(
                spec_stack_to_ace(s, 0),
                spec_alt(
                    spec_pile_to_pile(s, 0),
                    spec_alt(
                        spec_pile_to_aces(s, 0),
                        spec_alt(
                            spec_aces_to_pile(s, 0),
                            spec_alt(
                                spec_undo(s, 0),
                                spec_alt(spec_cycle(s, 0), spec_quit(s, 0)),
                            ),
                        ),
                    ),
                ),
            ),
        ),
    )
}

/// What `parse_move` decides on a command line: the line is trimmed, the
/// first matching rule wins, and whatever that rule leaves unread makes the
/// whole parse fail.
pub open spec fn spec_parse_move(s: Seq<char>) -> Result<ParsedMove, CustomErrorKind> {
    let t = spec_trim(s);
    match spec_alternatives(t) {
        Err(k) => Err(k),
        Ok((p, m)) => if p == t.len() {
            Ok(m)
        } else {
            Err(CustomErrorKind::InputHadLeftovers)
        },
    }
}

/// Read the move prefix `m;` or `m`.
pub fn parse_move_prefix(s: &Vec<char>, pos: usize) -> (r: Option<usize>)
    requires
        pos <= s@.len(),
    ensures
        match r {
            Some(p) => spec_move_prefix(s@, pos as int) == Some(p as int) && pos <= p <= s@.len(),
            None => spec_move_prefix(s@, pos as int) is None,
        },
{
    if s.len() - pos >= 2 && s[pos] == 'm' && s[pos + 1] == ';' {
        Some(pos + 2)
    } else if pos < s.len() && s[pos] == 'm' {
        Some(pos + 1)
    } else {
        None
    }
}

/// Read `next` or `n`.
pub fn parse_stack_revealing(s: &Vec<char>, pos: usize) -> (r: Result<
    (usize, ParsedMove),
    CustomError,
>)
    requires
        pos <= s@.len(),
    ensures
        match r {
            Ok((p, m)) => spec_stack_revealing(s@, pos as int) == Ok::<
                (int, ParsedMove),
                CustomErrorKind,
            >((p as int, m)) && pos <= p <= s@.len(),
            Err(e) => spec_stack_revealing(s@, pos as int) == Err::<
                (int, ParsedMove),
                CustomErrorKind,
            >(e.kind),
        },
{
    if s.len() - pos >= 4 && s[pos] == 'n' && s[pos + 1] == 'e' && s[pos + 2] == 'x' && s[pos + 3]
        == 't' {
        Ok((pos + 4, ParsedMove::RevealNextOfStack))
    } else if pos < s.len() && s[pos] == 'n' {
        Ok((pos + 1, ParsedMove::RevealNextOfStack))
    } else {
        Err(CustomError { kind: CustomErrorKind::Syntax })
    }
}

/// Read `undo` or `u`.
pub fn parse_undo(s: &Vec<char>, pos: usize) -> (r: Result<(usize, ParsedMove), CustomError>)
    requires
        pos <= s@.len(),
    ensures
        match r {
            Ok((p, m)) => spec_undo(s@, pos as int) == Ok::<(int, ParsedMove), CustomErrorKind>(
                (p as int, m),
            ) && pos <= p <= s@.len(),
            Err(e) => spec_undo(s@, pos as int) == Err::<(int, ParsedMove), CustomErrorKind>(
                e.kind,
            ),
        },
{
    if s.len() - pos >= 4 && s[pos] == 'u' && s[pos + 1] == 'n' && s[pos + 2] == 'd' && s[pos + 3]
        == 'o' {
        Ok((pos + 4, ParsedMove::Undo))
    } else if pos < s.len() && s[pos] == 'u' {
        Ok((pos + 1, ParsedMove::Undo))
    } else {
        Err(CustomError { kind: CustomErrorKind::Syntax })
    }
}

/// Read `cycle`.
pub fn parse_cycle(s: &Vec<char>, pos: usize) -> (r: Result<(usize, ParsedMove), CustomError>)
    requires
        pos <= s@.len(),
    ensures
        match r {
            Ok((p, m)) => spec_cycle(s@, pos as int) == Ok::<(int, ParsedMove), CustomErrorKind>(
                (p as int, m),
            ) && pos <= p <= s@.len(),
            Err(e) => spec_cycle(s@, pos as int) == Err::<(int, ParsedMove), CustomErrorKind>(
                e.kind,
            ),
        },
{
    if s.len() - pos >= 5 && s[pos] == 'c' && s[pos + 1] == 'y' && s[pos + 2] == 'c' && s[pos + 3]
        == 'l' && s[pos + 4] == 'e' {
        Ok((pos + 5, ParsedMove::Cycle))
    } else {
        Err(CustomError { kind: CustomErrorKind::Syntax })
    }
}

/// Read `quit` or `q`.
pub fn parse_quit(s: &Vec<char>, pos: usize) -> (r: Result<(usize, ParsedMove), CustomError>)
    requires
        pos <= s@.len(),
    ensures
        match r {
            Ok((p, m)) => spec_quit(s@, pos as int) == Ok::<(int, ParsedMove), CustomErrorKind>(
                (p as int, m),
            ) && pos <= p <= s@.len(),
            Err(e) => spec_quit(s@, pos as int) == Err::<(int, ParsedMove), CustomErrorKind>(
                e.kind,
            ),
        },
{
    if s.len() - pos >= 4 && s[pos] == 'q' && s[pos + 1] == 'u' && s[pos + 2] == 'i' && s[pos + 3]
        == 't' {
        Ok((pos + 4, ParsedMove::Quit))
    } else if pos < s.len() && s[pos] == 'q' {
        Ok((pos + 1, ParsedMove::Quit))
    } else {
        Err(CustomError { kind: CustomErrorKind::Syntax })
    }
}

/// Read `s;X`, the stock-to-column move.
pub fn parse_move_stack_to_pile(s: &Vec<char>, pos: usize) -> (r: Result<
    (usize, ParsedMove),
    CustomError,
>)
    requires
        pos <= s@.len(),
    ensures
        match r {
            Ok((p, m)) => spec_stack_to_pile(s@, pos as int) == Ok::<
                (int, ParsedMove),
                CustomErrorKind,
            >((p as int, m)) && pos <= p <= s@.len(),
            Err(e) => spec_stack_to_pile(s@, pos as int) == Err::<
                (int, ParsedMove),
                CustomErrorKind,
            >(e.kind),
        },
{
    if s.len() - pos >= 2 && s[pos] == 's' && s[pos + 1] == ';' {
        match parse_u32(s, pos + 2) {
            Some((p2, n)) => {
                if n >= 7 {
                    Err(CustomError { kind: CustomErrorKind::OutOfRangePiles(n as usize) })
                } else {
                    Ok((p2, ParsedMove::MoveFromStackToPile(n as u8)))
                }
            },
            None => Err(CustomError { kind: CustomErrorKind::Syntax }),
        }
    } else {
        Err(CustomError { kind: CustomErrorKind::Syntax })
    }
}

/// Read `s;aX`, the stock-to-foundation move.
pub fn parse_move_stack_to_ace(s: &Vec<char>, pos: usize) -> (r: Result<
    (usize, ParsedMove),
    CustomError,
>)
    requires
        pos <= s@.len(),
    ensures
        match r {
            Ok((p, m)) => spec_stack_to_ace(s@, pos as int) == Ok::<
                (int, ParsedMove),
                CustomErrorKind,
            >((p as int, m)) && pos <= p <= s@.len(),
            Err(e) => spec_stack_to_ace(s@, pos as int) == Err::<
                (int, ParsedMove),
                CustomErrorKind,
            >(e.kind),
        },
{
    if s.len() - pos >= 3 && s[pos] == 's' && s[pos + 1] == ';' && s[pos + 2] == 'a' {
        match parse_u32(s, pos + 3) {
            Some((p2, n)) => {
                if n >= 4 {
                    Err(CustomError { kind: CustomErrorKind::OutOfRangeAces(n as usize) })
                } else {
                    Ok((p2, ParsedMove::MoveFromStackToAce(n as u8)))
                }
            },
            None => Err(CustomError { kind: CustomErrorKind::Syntax }),
        }
    } else {
        Err(CustomError { kind: CustomErrorKind::Syntax })
    }
}

/// Read `mX;Y;N` or `m;X;Y;N`, the block move between columns.
pub fn parse_move_pile_to_pile(s: &Vec<char>, pos: usize) -> (r: Result<
    (usize, ParsedMove),
    CustomError,
>)
    requires
        pos <= s@.len(),
    ensures
        match r {
            Ok((p, m)) => spec_pile_to_pile(s@, pos as int) == Ok::<
                (int, ParsedMove),
                CustomErrorKind,
            >((p as int, m)) && pos <= p <= s@.len(),
            Err(e) => spec_pile_to_pile(s@, pos as int) == Err::<
                (int, ParsedMove),
                CustomErrorKind,
            >(e.kind),
        },
{
    let p1 = match parse_move_prefix(s, pos) {
        Some(p1) => p1,
        None => {
            return Err(CustomError { kind: CustomErrorKind::Syntax });
        },
    };
    let (p2, x) = match parse_u32(s, p1) {
        Some(v) => v,
        None => {
            return Err(CustomError { kind: CustomErrorKind::Syntax });
        },
    };
    if !(p2 < s.len() && s[p2] == ';') {
        return Err(CustomError { kind: CustomErrorKind::Syntax });
    }
    let (p3, y) = match parse_u32(s, p2 + 1) {
        Some(v) => v,
        None => {
            return Err(CustomError { kind: CustomErrorKind::Syntax });
        },
    };
    if !(p3 < s.len() && s[p3] == ';') {
        return Err(CustomError { kind: CustomErrorKind::Syntax });
    }
    let (p4, n) = match parse_u32(s, p3 + 1) {
        Some(v) => v,
        None => {
            return Err(CustomError { kind: CustomErrorKind::Syntax });
        },
    };
    if x >= 7 || y >= 7 {
        let z = if x >= y {
            x
        } else {
            y
        };
        Err(CustomError { kind: CustomErrorKind::OutOfRangePiles(z as usize) })
    } else if x == y {
        Err(CustomError { kind: CustomErrorKind::RepeatedSelection })
    } else if n >= 255 {
        Err(CustomError { kind: CustomErrorKind::AmountTooLarge(n as usize) })
    } else {
        Ok((p4, ParsedMove::MoveFromPileToPile { from: x as u8, to: y as u8, amount: n as u8 }))
    }
}

/// Read `mX;aY` or `m;X;aY`, the column-to-foundation move.
pub fn parse_move_pile_to_aces(s: &Vec<char>, pos: usize) -> (r: Result<
    (usize, ParsedMove),
    CustomError,
>)
    requires
        pos <= s@.len(),
    ensures
        match r {
            Ok((p, m)) => spec_pile_to_aces(s@, pos as int) == Ok::<
                (int, ParsedMove),
                CustomErrorKind,
            >((p as int, m)) && pos <= p <= s@.len(),
            Err(e) => spec_pile_to_aces(s@, pos as int) == Err::<
                (int, ParsedMove),
                CustomErrorKind,
            >(e.kind),
        },
{
    let p1 = match parse_move_prefix(s, pos) {
        Some(p1) => p1,
        None => {
            return Err(CustomError { kind: CustomErrorKind::Syntax });
        },
    };
    let (p2, pile) = match parse_u32(s, p1) {
        Some(v) => v,
        None => {
            return Err(CustomError { kind: CustomErrorKind::Syntax });
        },
    };
    if !(s.len() - p2 >= 2 && s[p2] == ';' && s[p2 + 1] == 'a') {
        return Err(CustomError { kind: CustomErrorKind::Syntax });
    }
    let (p3, ace) = match parse_u32(s, p2 + 2) {
        Some(v) => v,
        None => {
            return Err(CustomError { kind: CustomErrorKind::Syntax });
        },
    };
    if pile >= 7 {
        Err(CustomError { kind: CustomErrorKind::OutOfRangePiles(pile as usize) })
    } else if ace >= 4 {
        Err(CustomError { kind: CustomErrorKind::OutOfRangeAces(ace as usize) })
    } else {
        Ok((p3, ParsedMove::MoveFromPileToAce { pile: pile as u8, ace: ace as u8 }))
    }
}

/// Read `maY;X` or `m;aY;X`, the foundation-to-column move.
pub fn parse_move_aces_to_pile(s: &Vec<char>, pos: usize) -> (r: Result<
    (usize, ParsedMove),
    CustomError,
>)
    requires
        pos <= s@.len(),
    ensures
        match r {
            Ok((p, m)) => spec_aces_to_pile(s@, pos as int) == Ok::<
                (int, ParsedMove),
                CustomErrorKind,
            >((p as int, m)) && pos <= p <= s@.len(),
            Err(e) => spec_aces_to_pile(s@, pos as int) == Err::<
                (int, ParsedMove),
                CustomErrorKind,
            >(e.kind),
        },
{
    let p1 = match parse_move_prefix(s, pos) {
        Some(p1) => p1,
        None => {
            return Err(CustomError { kind: CustomErrorKind::Syntax });
        },
    };
    if !(p1 < s.len() && s[p1] == 'a') {
        return Err(CustomError { kind: CustomErrorKind::Syntax });
    }
    let (p2, ace) = match parse_u32(s, p1 + 1) {
        Some(v) => v,
        None => {
            return Err(CustomError { kind: CustomErrorKind::Syntax });
        },
    };
    if !(p2 < s.len() && s[p2] == ';') {
        return Err(CustomError { kind: CustomErrorKind::Syntax });
    }
    let (p3, pile) = match parse_u32(s, p2 + 1) {
        Some(v) => v,
        None => {
            return Err(CustomError { kind: CustomErrorKind::Syntax });
        },
    };
    if pile >= 7 {
        Err(CustomError { kind: CustomErrorKind::OutOfRangePiles(pile as usize) })
    } else if ace >= 4 {
        Err(CustomError { kind: CustomErrorKind::OutOfRangeAces(ace as usize) })
    } else {
        Ok((p3, ParsedMove::MoveFromAceToPile { ace: ace as u8, pile: pile as u8 }))
    }
}

/// Try every grammar rule in order on the trimmed line.
fn run_alternatives(t: &Vec<char>) -> (r: Result<(usize, ParsedMove), CustomError>)
    ensures
        match r {
            Ok((p, m)) => spec_alternatives(t@) == Ok::<(int, ParsedMove), CustomErrorKind>(
                (p as int, m),
            ) && p <= t@.len() && pm_wf(m),
            Err(e) => spec_alternatives(t@) == Err::<(int, ParsedMove), CustomErrorKind>(e.kind),
        },
{
    let mut err = CustomError { kind: CustomErrorKind::Syntax };
    match parse_stack_revealing(t, 0) {
        Ok(x) => {
            return Ok(x);
        },
        Err(e) => {
            if matches!(err.kind, CustomErrorKind::Syntax) {
                err = e;
            }
        },
    }
    match parse_move_stack_to_pile(t, 0) {
        Ok(x) => {
            return Ok(x);
        },
        Err(e) => {
            if matches!(err.kind, CustomErrorKind::Syntax) {
                err = e;
            }
        },
    }
    match parse_move_stack_to_ace(t, 0) {
        Ok(x) => {
            return Ok(x);
        },
        Err(e) => {
            if matches!(err.kind, CustomErrorKind::Syntax) {
                err = e;
            }
        },
    }
    match parse_move_pile_to_pile(t, 0) {
        Ok(x) => {
            return Ok(x);
        },
        Err(e) => {
            if matches!(err.kind, CustomErrorKind::Syntax) {
                err = e;
            }
        },
    }
    match parse_move_pile_to_aces(t, 0) {
        Ok(x) => {
            return Ok(x);
        },
        Err(e) => {
            if matches!(err.kind, CustomErrorKind::Syntax) {
                err = e;
            }
        },
    }
    match parse_move_aces_to_pile(t, 0) {
        Ok(x) => {
            return Ok(x);
        },
        Err(e) => {
            if matches!(err.kind, CustomErrorKind::Syntax) {
                err = e;
            }
        },
    }
    match parse_undo(t, 0) {
        Ok(x) => {
            return Ok(x);
        },
        Err(e) => {
            if matches!(err.kind, CustomErrorKind::Syntax) {
                err = e;
            }
        },
    }
    match parse_cycle(t, 0) {
        Ok(x) => {
            return Ok(x);
        },
        Err(e) => {
            if matches!(err.kind, CustomErrorKind::Syntax) {
                err = e;
            }
        },
    }
    match parse_quit(t, 0) {
        Ok(x) => {
            return Ok(x);
        },
        Err(e) => {
            if matches!(err.kind, CustomErrorKind::Syntax) {
                err = e;
            }
        },
    }
    Err(err)
}

/// Parse one command line into a structured move, or say exactly why not.
/// The line is trimmed, the grammar rules are tried in their fixed order,
/// the first match must consume the whole line, and every numeric index is
/// validated here, before the engine ever sees the move.
pub fn parse_move(input: &str) -> (r: Result<ParsedMove, ParsingError>)
    ensures
        match r {
            Ok(pm) => spec_parse_move(input@) == Ok::<ParsedMove, CustomErrorKind>(pm) && pm_wf(
                pm,
            ),
            Err(e) => spec_parse_move(input@) == Err::<ParsedMove, CustomErrorKind>(e.kind)
                && e.input@ == input@,
        },
{
    let chars = chars_of(input);
    let t = trimmed_chars(&chars);
    match run_alternatives(&t) {
        Ok((p, m)) => {
            if p == t.len() {
                Ok(m)
            } else {
                Err(
                    ParsingError {
                        input: input.to_owned(),
                        kind: CustomErrorKind::InputHadLeftovers,
                    },
                )
            }
        },
        Err(e) => Err(ParsingError { input: input.to_owned(), kind: e.kind }),
    }
}

} // verus!
