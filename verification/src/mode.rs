//! Modes: absolute permission bits or a symbolic change.

use vstd::prelude::*;

use crate::error::{Error, ErrorView, ModeParseError};

verus! {

/// The bits a mode change manages: permissions, set-id and sticky.
pub const PERMISSION_MASK: u32 = 0o7777;

/// Whether `c` is a digit of base eight.
pub open spec fn is_octal_digit(c: char) -> bool {
    '0' <= c && c <= '7'
}

/// The number a base-eight digit stands for.
pub open spec fn digit_value(c: char) -> nat {
    (c as u32 - '0' as u32) as nat
}

/// The number written by the digits `s`, most significant first.
pub open spec fn octal_value(s: Seq<char>) -> nat
    decreases s.len(),
{
    if s.len() == 0 {
        0
    } else {
        octal_value(s.drop_last()) * 8 + digit_value(s.last())
    }
}

/// The digits of a number that may carry a leading plus sign.
pub open spec fn unsigned_part(s: Seq<char>) -> Seq<char> {
    if s.len() > 0 && s[0] == '+' {
        s.subrange(1, s.len() as int)
    } else {
        s
    }
}

/// The value of `s` read as a base-eight number of 32 bits: an optional plus
/// sign, then one or more digits and nothing else, the whole not above
/// `u32::MAX`. Any other string has no value.
pub open spec fn parse_octal(s: Seq<char>) -> Option<u32> {
    let digits = unsigned_part(s);
    if digits.len() > 0 && (forall|i: int| 0 <= i < digits.len() ==> is_octal_digit(#[trigger] digits[i]))
        && octal_value(digits) <= u32::MAX {
        Some(octal_value(digits) as u32)
    } else {
        None
    }
}

/// A longer digit string is worth at least as much as any of its prefixes.
proof fn lemma_octal_value_prefix(s: Seq<char>, k: int)
    requires
        0 <= k <= s.len(),
    ensures
        octal_value(s.take(k)) <= octal_value(s),
    decreases s.len(),
{
    if k == s.len() {
        assert(s.take(k) =~= s);
    } else {
        assert(s.drop_last().take(k) =~= s.take(k));
        lemma_octal_value_prefix(s.drop_last(), k);
    }
}

/// Reads `s` as a base-eight number.
pub fn octal_from_str(s: &str) -> (r: Option<u32>)
    ensures
        r == parse_octal(s@),
{
    let len: usize = s.unicode_len();
    let start: usize = if len > 0 && s.get_char(0) == '+' { 1 } else { 0 };
    if start == len {
        return None;
    }
    let ghost digits = unsigned_part(s@);
    let mut value: u32 = 0;
    let mut i: usize = start;
    while i < len
        invariant
            start <= i <= len,
            len == s@.len(),
            digits == unsigned_part(s@),
            digits.len() == len - start,
            forall|j: int| 0 <= j < digits.len() ==> digits[j] == s@[j + start],
            forall|j: int| 0 <= j < i - start ==> is_octal_digit(#[trigger] digits[j]),
            value == octal_value(digits.take(i - start)),
        decreases len - i,
    {
        let c: char = s.get_char(i);
        if !('0' <= c && c <= '7') {
            assert(!is_octal_digit(digits[i - start]));
            return None;
        }
        let d: u32 = c as u32 - '0' as u32;
        proof {
            let next = digits.take(i - start + 1);
            assert(next.drop_last() =~= digits.take(i - start));
            assert(next.last() == c);
            lemma_octal_value_prefix(digits, i - start + 1);
        }
        if value > (u32::MAX - d) / 8 {
            return None;
        }
        value = value * 8 + d;
        i = i + 1;
    }
    assert(digits.take(i - start) =~= digits);
    Some(value)
}

/// Whether `c` names a class of users (`u`, `g`, `o`) or all of them (`a`).
pub open spec fn is_user_flag(c: char) -> bool {
    c == 'u' || c == 'g' || c == 'o' || c == 'a'
}

/// Whether `c` is one of the operators `-`, `+`, `=`.
pub open spec fn is_operator(c: char) -> bool {
    c == '-' || c == '+' || c == '='
}

/// Whether `c` names a class of users whose bits an expression may copy.
pub open spec fn is_source(c: char) -> bool {
    c == 'u' || c == 'g' || c == 'o'
}

/// Whether `c` is one of the permission letters `r w x X s t`.
pub open spec fn is_bit(c: char) -> bool {
    c == 'r' || c == 'w' || c == 'x' || c == 'X' || c == 's' || c == 't'
}

/// Length of the clause that starts at `i`: the characters before the next
/// comma, or before the end of the string.
pub open spec fn clause_len(s: Seq<char>, i: int) -> nat
    decreases s.len() - i,
{
    if i < 0 || i >= s.len() || s[i] == ',' {
        0
    } else {
        1 + clause_len(s, i + 1)
    }
}

/// Where the user flags that start at `i` stop, at `end` at the latest.
pub open spec fn users_end(s: Seq<char>, i: int, end: int) -> int
    decreases end - i,
{
    if 0 <= i < end && end <= s.len() && is_user_flag(s[i]) {
        users_end(s, i + 1, end)
    } else {
        i
    }
}

/// The first character in `s[i..end]` that is no permission letter.
pub open spec fn first_non_bit(s: Seq<char>, i: int, end: int) -> Option<char>
    decreases end - i,
{
    if i < 0 || i >= end || end > s.len() {
        None
    } else if !is_bit(s[i]) {
        Some(s[i])
    } else {
        first_non_bit(s, i + 1, end)
    }
}

/// The character at which a list of permission letters in the expressions
/// `s[i..end]` is broken, if any.
///
/// An expression is an operator followed either by one source class or by
/// permission letters up to the end of the clause. Text that does not start
/// with an operator is not a list of letters and is not judged here.
pub open spec fn expressions_bad(s: Seq<char>, i: int, end: int) -> Option<char>
    decreases end - i,
{
    if i < 0 || i + 1 >= end || end > s.len() || !is_operator(s[i]) {
        None
    } else if is_source(s[i + 1]) {
        expressions_bad(s, i + 2, end)
    } else {
        first_non_bit(s, i + 1, end)
    }
}

/// The offending character of the clause `s[start..end]`, if any. A clause
/// that ends in an octal digit is an octal clause and holds no letter list.
pub open spec fn clause_bad(s: Seq<char>, start: int, end: int) -> Option<char> {
    if 0 <= start < end && end <= s.len() && is_octal_digit(s[end - 1]) {
        None
    } else {
        expressions_bad(s, users_end(s, start, end), end)
    }
}

/// A list of permission letters that holds another character.
pub struct BrokenList {
    /// Where the clause with the list starts.
    pub start: int,
    /// The first character of the list that is no permission letter.
    pub found: char,
}

/// The first broken letter list among the comma-separated clauses of `s`
/// from position `i` on.
pub open spec fn first_broken_from(s: Seq<char>, i: int) -> Option<BrokenList>
    decreases s.len() - i,
{
    let end = i + clause_len(s, i);
    match clause_bad(s, i, end) {
        Some(found) => Some(BrokenList { start: i, found }),
        None => if 0 <= i && end < s.len() {
            first_broken_from(s, end + 1)
        } else {
            None
        },
    }
}

/// The first broken letter list of the symbolic mode string `s`, or `None`
/// where every letter list of `s` is made of permission letters only.
pub open spec fn first_broken(s: Seq<char>) -> Option<BrokenList> {
    first_broken_from(s, 0)
}

/// The first character of the symbolic mode string `s` that stands in a list
/// of permission letters without being one, if there is any.
pub open spec fn first_bad_bit(s: Seq<char>) -> Option<char> {
    match first_broken(s) {
        Some(broken) => Some(broken.found),
        None => None,
    }
}

/// The text of `s` in front of the clause that starts at `start`, without
/// the comma between them.
pub open spec fn text_before(s: Seq<char>, start: int) -> Seq<char> {
    s.subrange(0, start - 1)
}

/// A clause ends at the first comma, or at the end of the text.
proof fn lemma_clause_end(s: Seq<char>, i: int)
    requires
        0 <= i <= s.len(),
    ensures
        i + clause_len(s, i) <= s.len(),
        forall|j: int| i <= j < i + clause_len(s, i) ==> s[j] != ',',
        i + clause_len(s, i) < s.len() ==> s[i + clause_len(s, i)] == ',',
    decreases s.len() - i,
{
    if i < s.len() && s[i] != ',' {
        lemma_clause_end(s, i + 1);
    }
}

/// A stretch without a comma that is followed by one, or by the end of the
/// text, is a clause.
proof fn lemma_clause_is(s: Seq<char>, i: int, end: int)
    requires
        0 <= i <= end <= s.len(),
        forall|j: int| i <= j < end ==> s[j] != ',',
        end == s.len() || s[end] == ',',
    ensures
        i + clause_len(s, i) == end,
    decreases end - i,
{
    if i < end {
        lemma_clause_is(s, i + 1, end);
    }
}

/// Whether two texts hold the same characters from `lo` up to `end`.
pub open spec fn same_stretch(a: Seq<char>, b: Seq<char>, lo: int, end: int) -> bool {
    &&& 0 <= lo <= end
    &&& end <= a.len()
    &&& end <= b.len()
    &&& forall|j: int| lo <= j < end ==> a[j] == b[j]
}

proof fn lemma_users_agree(a: Seq<char>, b: Seq<char>, lo: int, i: int, end: int)
    requires
        same_stretch(a, b, lo, end),
        lo <= i,
    ensures
        users_end(a, i, end) == users_end(b, i, end),
        i <= end ==> i <= users_end(a, i, end) <= end,
    decreases end - i,
{
    if i < end && is_user_flag(a[i]) {
        lemma_users_agree(a, b, lo, i + 1, end);
    }
}

proof fn lemma_bits_agree(a: Seq<char>, b: Seq<char>, lo: int, i: int, end: int)
    requires
        same_stretch(a, b, lo, end),
        lo <= i,
    ensures
        first_non_bit(a, i, end) == first_non_bit(b, i, end),
    decreases end - i,
{
    if i < end && is_bit(a[i]) {
        lemma_bits_agree(a, b, lo, i + 1, end);
    }
}

proof fn lemma_expressions_agree(a: Seq<char>, b: Seq<char>, lo: int, i: int, end: int)
    requires
        same_stretch(a, b, lo, end),
        lo <= i,
    ensures
        expressions_bad(a, i, end) == expressions_bad(b, i, end),
    decreases end - i,
{
    if i + 1 < end && is_operator(a[i]) {
        if is_source(a[i + 1]) {
            lemma_expressions_agree(a, b, lo, i + 2, end);
        } else {
            lemma_bits_agree(a, b, lo, i + 1, end);
        }
    }
}

/// Whether a clause is broken depends on its own characters alone.
proof fn lemma_clause_agrees(a: Seq<char>, b: Seq<char>, start: int, end: int)
    requires
        same_stretch(a, b, start, end),
    ensures
        clause_bad(a, start, end) == clause_bad(b, start, end),
{
    lemma_users_agree(a, b, start, start, end);
    lemma_expressions_agree(a, b, start, users_end(a, start, end), end);
}

proof fn lemma_text_before_from(s: Seq<char>, i: int, broken: BrokenList)
    requires
        0 <= i <= s.len(),
        first_broken_from(s, i) == Some(broken),
    ensures
        i <= broken.start <= s.len(),
        i < broken.start ==> s[broken.start - 1] == ',' && first_broken_from(
            text_before(s, broken.start),
            i,
        ) is None,
    decreases s.len() - i,
{
    let end = i + clause_len(s, i);
    lemma_clause_end(s, i);
    if clause_bad(s, i, end) is None {
        lemma_text_before_from(s, end + 1, broken);
        let before = text_before(s, broken.start);
        assert(same_stretch(s, before, i, end));
        lemma_clause_is(before, i, end);
        lemma_clause_agrees(s, before, i, end);
    }
}

/// In front of the first broken letter list no letter list is broken.
pub proof fn lemma_text_before_is_sound(s: Seq<char>)
    requires
        first_broken(s) is Some,
    ensures
        0 <= first_broken(s)->0.start <= s.len(),
        first_broken(s)->0.start > 0 ==> first_bad_bit(
            text_before(s, first_broken(s)->0.start),
        ) is None,
{
    lemma_text_before_from(s, 0, first_broken(s)->0);
}

fn scan_clause(s: &str, start: usize, len: usize) -> (end: usize)
    requires
        start <= len,
        len == s@.len(),
    ensures
        end == start + clause_len(s@, start as int),
        end <= len,
{
    let mut i: usize = start;
    while i < len && s.get_char(i) != ','
        invariant
            start <= i <= len,
            len == s@.len(),
            start + clause_len(s@, start as int) == i + clause_len(s@, i as int),
        decreases len - i,
    {
        i = i + 1;
    }
    i
}

fn scan_users(s: &str, start: usize, end: usize) -> (stop: usize)
    requires
        start <= end <= s@.len(),
    ensures
        stop == users_end(s@, start as int, end as int),
        start <= stop <= end,
{
    let mut i: usize = start;
    while i < end
        invariant
            start <= i <= end <= s@.len(),
            users_end(s@, start as int, end as int) == users_end(s@, i as int, end as int),
        decreases end - i,
    {
        let c: char = s.get_char(i);
        if !(c == 'u' || c == 'g' || c == 'o' || c == 'a') {
            return i;
        }
        i = i + 1;
    }
    i
}

fn scan_bits(s: &str, start: usize, end: usize) -> (r: Option<char>)
    requires
        start <= end <= s@.len(),
    ensures
        r == first_non_bit(s@, start as int, end as int),
{
    let mut i: usize = start;
    while i < end
        invariant
            start <= i <= end <= s@.len(),
            first_non_bit(s@, start as int, end as int) == first_non_bit(s@, i as int, end as int),
        decreases end - i,
    {
        let c: char = s.get_char(i);
        if !(c == 'r' || c == 'w' || c == 'x' || c == 'X' || c == 's' || c == 't') {
            return Some(c);
        }
        i = i + 1;
    }
    None
}

fn scan_expressions(s: &str, start: usize, end: usize) -> (r: Option<char>)
    requires
        start <= end <= s@.len(),
    ensures
        r == expressions_bad(s@, start as int, end as int),
{
    let mut i: usize = start;
    while end - i >= 2
        invariant
            start <= i <= end <= s@.len(),
            expressions_bad(s@, start as int, end as int) == expressions_bad(s@, i as int, end as int),
        decreases end - i,
    {
        let op: char = s.get_char(i);
        if !(op == '-' || op == '+' || op == '=') {
            return None;
        }
        let c: char = s.get_char(i + 1);
        if !(c == 'u' || c == 'g' || c == 'o') {
            return scan_bits(s, i + 1, end);
        }
        i = i + 2;
    }
    None
}

fn scan_clause_bits(s: &str, start: usize, end: usize) -> (r: Option<char>)
    requires
        start <= end <= s@.len(),
    ensures
        r == clause_bad(s@, start as int, end as int),
{
    if start < end {
        let last: char = s.get_char(end - 1);
        if '0' <= last && last <= '7' {
            return None;
        }
    }
    let users: usize = scan_users(s, start, end);
    scan_expressions(s, users, end)
}

/// Finds the first broken letter list of `s`: where its clause starts, and
/// the character that is no permission letter.
pub fn find_broken_list(s: &str) -> (r: Option<(usize, char)>)
    ensures
        match r {
            Some((start, found)) => first_broken(s@) == Some(
                BrokenList { start: start as int, found },
            ),
            None => first_broken(s@) is None,
        },
{
    let len: usize = s.unicode_len();
    let mut start: usize = 0;
    loop
        invariant
            start <= len,
            len == s@.len(),
            first_broken(s@) == first_broken_from(s@, start as int),
        decreases len - start,
    {
        let end: usize = scan_clause(s, start, len);
        match scan_clause_bits(s, start, end) {
            Some(found) => {
                return Some((start, found));
            },
            None => {
                if end >= len {
                    return None;
                }
            },
        }
        start = end + 1;
    }
}

/// Finds the first character of `s` that stands in a list of permission
/// letters without being one.
pub fn find_bad_bit(s: &str) -> (r: Option<char>)
    ensures
        r == first_bad_bit(s@),
{
    match find_broken_list(s) {
        Some((_, found)) => Some(found),
        None => None,
    }
}

/// What the symbolic mode string `mode` makes of an entry whose mode word is
/// `current`, in a process whose file-creation mask is `umask`: the entry's new
/// mode word, or the reason the string was rejected.
///
/// `current` is the whole mode word, file type included: the type decides
/// whether the letter `X` applies.
pub uninterp spec fn symbolic_outcome(mode: Seq<char>, current: u32, umask: u32) -> Result<
    u32,
    ModeParseError,
>;

/// Runs `file_mode`'s parser on `mode` and applies the change to `current`:
/// `Mode::from(current)`, then `Mode::set_str_umask(mode, umask)`, then
/// `Mode::apply_to(current)`.
///
/// The contract claims that the outcome depends on the three arguments alone,
/// and names it. The parser aborts on a list of permission letters that holds
/// another character; such strings are kept out.
#[verifier::external_body]
fn symbolic_change(mode: &str, current: u32, umask: u32) -> (r: Result<u32, ModeParseError>)
    requires
        first_bad_bit(mode@) is None,
    ensures
        r == symbolic_outcome(mode@, current, umask),
{
    let mut target = file_mode::Mode::from(current);
    match target.set_str_umask(mode, umask) {
        Ok(()) => Ok(target.apply_to(current)),
        Err(file_mode::ModeParseError::UnexpectedChar(expected, found)) => Err(
            ModeParseError::UnexpectedChar(expected, found),
        ),
        Err(file_mode::ModeParseError::UnexpectedEnd(expected)) => Err(
            ModeParseError::UnexpectedEnd(expected),
        ),
        Err(file_mode::ModeParseError::OctalParseError(_)) => Err(ModeParseError::OctalParseError),
    }
}

/// A mode: permission bits given outright, or a symbolic change
/// to the bits an entry already has.
#[derive(Debug, Clone, Copy)]
pub enum ChmodMode<'a> {
    Octal(u32),
    Symbolic(&'a str),
}

/// Mathematical value of a [`ChmodMode`].
pub enum ModeView {
    Octal(u32),
    Symbolic(Seq<char>),
}

impl<'a> View for ChmodMode<'a> {
    type V = ModeView;

    open spec fn view(&self) -> ModeView {
        match *self {
            ChmodMode::Octal(bits) => ModeView::Octal(bits),
            ChmodMode::Symbolic(text) => ModeView::Symbolic(text@),
        }
    }
}

/// The mode that the string `s` stands for: absolute where the whole of `s` is
/// a base-eight number, symbolic otherwise.
pub open spec fn mode_of(s: Seq<char>) -> ModeView {
    match parse_octal(s) {
        Some(bits) => ModeView::Octal(bits),
        None => ModeView::Symbolic(s),
    }
}

/// What is reported for a symbolic string with a broken letter list.
pub open spec fn bad_bit_error(found: char) -> ModeParseError {
    ModeParseError::UnexpectedChar("[rwxXst]", found)
}

/// What a symbolic mode string makes of an entry, with a broken letter list
/// reported where the parser gets to it.
///
/// The clauses are judged in order. Where no letter list is broken the
/// outcome is the parser's. Otherwise the text in front of the first broken
/// list is the parser's to judge: its diagnostic stands if it rejects that
/// text, and the broken list is reported if it does not.
pub open spec fn checked_outcome(text: Seq<char>, current: u32, umask: u32) -> Result<
    u32,
    ModeParseError,
> {
    match first_broken(text) {
        None => symbolic_outcome(text, current, umask),
        Some(broken) => if broken.start > 0 {
            match symbolic_outcome(text_before(text, broken.start), current, umask) {
                Err(earlier) => Err(earlier),
                Ok(_) => Err(bad_bit_error(broken.found)),
            }
        } else {
            Err(bad_bit_error(broken.found))
        },
    }
}

/// The permission bits that `mode` gives an entry whose mode word is `current`.
///
/// An absolute mode replaces the managed bits whatever the entry had. A
/// symbolic mode is a function of the current word and of the process's mask.
pub open spec fn new_bits(mode: ModeView, current: u32, umask: u32) -> Result<u32, ErrorView> {
    match mode {
        ModeView::Octal(bits) => Ok(bits & PERMISSION_MASK),
        ModeView::Symbolic(text) => match checked_outcome(text, current, umask) {
            Ok(word) => Ok(word & PERMISSION_MASK),
            Err(e) => Err(ErrorView::FileMode(e)),
        },
    }
}

/// Mathematical value of a computed mode: the bits, or the failure's value.
pub open spec fn bits_view(r: Result<u32, Error>) -> Result<u32, ErrorView> {
    match r {
        Ok(bits) => Ok(bits),
        Err(e) => Err(e@),
    }
}

/// The verdict on a symbolic string once the parser's outcome is known.
pub fn symbolic_bits(parsed: Result<u32, ModeParseError>) -> (r: Result<u32, Error>)
    ensures
        bits_view(r) == (match parsed {
            Ok(word) => Ok::<u32, ErrorView>(word & PERMISSION_MASK),
            Err(e) => Err(ErrorView::FileMode(e)),
        }),
{
    match parsed {
        Ok(word) => Ok(word & PERMISSION_MASK),
        Err(e) => Err(Error::FileMode(e)),
    }
}

/// The diagnostic for a string with a broken letter list, once the parser's
/// outcome on the text in front of the list is known; `None` where the list
/// stands in the first clause. A diagnostic of the parser comes first.
pub fn broken_list_error(before: Option<Result<u32, ModeParseError>>, found: char) -> (e:
    ModeParseError)
    ensures
        e == (match before {
            Some(Err(earlier)) => earlier,
            _ => bad_bit_error(found),
        }),
{
    match before {
        Some(Err(earlier)) => earlier,
        _ => ModeParseError::UnexpectedChar("[rwxXst]", found),
    }
}

impl<'a> ChmodMode<'a> {
    /// Reads a mode from its textual form. This never fails: a string that is
    /// no base-eight number is kept as a symbolic mode and judged when applied.
    pub fn new(mode: &'a str) -> (r: Self)
        ensures
            r@ == mode_of(mode@),
            parse_octal(mode@) is None ==> r == ChmodMode::Symbolic(mode),
    {
        match octal_from_str(mode) {
            Some(number) => ChmodMode::Octal(number),
            None => ChmodMode::Symbolic(mode),
        }
    }

    /// Whether the entry's current mode word must be read before its new bits
    /// can be computed.
    pub fn needs_current(&self) -> (r: bool)
        ensures
            r == (self@ is Symbolic),
    {
        match self {
            ChmodMode::Octal(_) => false,
            ChmodMode::Symbolic(_) => true,
        }
    }

    /// Computes the permission bits to write to an entry whose mode word is
    /// `current`.
    ///
    /// A symbolic string is judged clause by clause, in order: the first
    /// clause that the parser rejects, or whose letter list is broken,
    /// decides the diagnostic.
    pub fn resolve(&self, current: u32, umask: u32) -> (r: Result<u32, Error>)
        ensures
            bits_view(r) == new_bits(self@, current, umask),
            r matches Ok(bits) ==> bits <= PERMISSION_MASK,
    {
        match *self {
            ChmodMode::Octal(bits) => {
                assert(bits & 0o7777 <= 0o7777) by (bit_vector);
                Ok(bits & PERMISSION_MASK)
            },
            ChmodMode::Symbolic(text) => match find_broken_list(text) {
                Some((start, found)) => {
                    let before = if start > 0 {
                        proof {
                            lemma_text_before_is_sound(text@);
                        }
                        Some(symbolic_change(text.substring_char(0, start - 1), current, umask))
                    } else {
                        None
                    };
                    Err(Error::FileMode(broken_list_error(before, found)))
                },
                None => {
                    let parsed = symbolic_change(text, current, umask);
                    proof {
                        if let Ok(word) = parsed {
                            assert(word & 0o7777 <= 0o7777) by (bit_vector);
                        }
                    }
                    symbolic_bits(parsed)
                },
            },
        }
    }
}

/// The permission bits of a mode word.
pub open spec fn permission_bits(word: u32) -> u32 {
    word & PERMISSION_MASK
}

/// The mode word of an entry after `bits` were written to it: the managed
/// bits are replaced, the file type stays.
pub open spec fn written(word: u32, bits: u32) -> u32 {
    (word & !PERMISSION_MASK) | (bits & PERMISSION_MASK)
}

/// An absolute mode within the managed bits reads back exactly: whatever the
/// entry had before, its permission bits after the write are those of the
/// mode, and its file type is untouched.
pub proof fn lemma_absolute_round_trip(bits: u32, current: u32, umask: u32)
    requires
        bits <= PERMISSION_MASK,
    ensures
        new_bits(ModeView::Octal(bits), current, umask) == Ok::<u32, ErrorView>(bits),
        permission_bits(written(current, bits)) == bits,
        written(current, bits) & !PERMISSION_MASK == current & !PERMISSION_MASK,
{
    assert(bits <= 0o7777 ==> bits & 0o7777 == bits) by (bit_vector);
    assert(bits <= 0o7777 ==> ((current & !0o7777u32) | (bits & 0o7777)) & 0o7777 == bits)
        by (bit_vector);
    assert(((current & !0o7777u32) | (bits & 0o7777)) & !0o7777u32 == current & !0o7777u32)
        by (bit_vector);
}

/// An absolute mode ignores what the entry had: any two entries are given
/// the same bits.
pub proof fn lemma_absolute_ignores_current(bits: u32, first: u32, second: u32, umask: u32)
    ensures
        new_bits(ModeView::Octal(bits), first, umask) == new_bits(
            ModeView::Octal(bits),
            second,
            umask,
        ),
{
}

/// Applying an absolute mode a second time changes nothing: the entry's mode
/// word after two applications is its mode word after one.
pub proof fn lemma_absolute_idempotent(bits: u32, current: u32, umask: u32)
    ensures
        new_bits(ModeView::Octal(bits), current, umask) matches Ok(first) && new_bits(
            ModeView::Octal(bits),
            written(current, first),
            umask,
        ) matches Ok(second) && written(written(current, first), second) == written(
            current,
            first,
        ),
{
    let first = bits & 0o7777;
    assert((((current & !0o7777u32) | (first & 0o7777)) & !0o7777u32) | (first & 0o7777) == (current
        & !0o7777u32) | (first & 0o7777)) by (bit_vector);
}

} // verus!
