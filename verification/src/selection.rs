//! Page selections: the tokens `N` and `N-M`, and the names of the files
//! that hold what was selected.

use crate::error::PdfError;
use vstd::prelude::*;
use vstd::string::*;

verus! {

/// A run of pages: those numbered `start` to `end`, both included.
#[derive(Debug, Clone, Copy, PartialEq, Eq)]
pub struct PageRange {
    pub start: u32,
    pub end: u32,
}

/// Whether `c` is one of the digits `0` to `9`.
pub open spec fn is_digit(c: char) -> bool {
    '0' <= c && c <= '9'
}

/// The value of the digit `c`.
pub open spec fn digit_value(c: char) -> nat {
    (c as u32 - '0' as u32) as nat
}

/// Whether `s` holds digits only.
pub open spec fn all_digits(s: Seq<char>) -> bool {
    forall|i: int| 0 <= i < s.len() ==> is_digit(#[trigger] s[i])
}

/// The value of the decimal numeral `s`.
pub open spec fn digits_value(s: Seq<char>) -> nat
    decreases s.len(),
{
    if s.len() == 0 {
        0
    } else {
        digits_value(s.drop_last()) * 10 + digit_value(s.last())
    }
}

/// The number that the numeral `digits` writes: one digit or more, with a
/// value of at most `u32::MAX`. `None` for anything else.
pub open spec fn unsigned(digits: Seq<char>) -> Option<u32> {
    if digits.len() > 0 && all_digits(digits) && digits_value(digits) <= u32::MAX {
        Some(digits_value(digits) as u32)
    } else {
        None
    }
}

/// The number that `s` writes: a numeral, with or without a `+` before it.
pub open spec fn number(s: Seq<char>) -> Option<u32> {
    if s.len() > 0 && s[0] == '+' {
        unsigned(s.drop_first())
    } else {
        unsigned(s)
    }
}

/// Position `at` holds the first `-` of `s`.
pub open spec fn first_dash(s: Seq<char>, at: int) -> bool {
    &&& 0 <= at < s.len()
    &&& s[at] == '-'
    &&& forall|i: int| 0 <= i < at ==> #[trigger] s[i] != '-'
}

/// The pages that the token selects: `N` selects page `N`, `N-M` selects
/// the pages `N` to `M`, where `1 <= N <= M`. `None` for anything else.
pub open spec fn selection(token: Seq<char>) -> Option<PageRange> {
    if exists|at: int| first_dash(token, at) {
        let at = choose|at: int| first_dash(token, at);
        match (number(token.subrange(0, at)), number(token.subrange(at + 1, token.len() as int))) {
            (Some(start), Some(end)) => if 1 <= start && start <= end {
                Some(PageRange { start, end })
            } else {
                None
            },
            _ => None,
        }
    } else {
        match number(token) {
            Some(page) => if 1 <= page {
                Some(PageRange { start: page, end: page })
            } else {
                None
            },
            None => None,
        }
    }
}

/// A numeral is worth at least as much as any of its beginnings.
pub proof fn lemma_digits_grow(s: Seq<char>, k: int)
    requires
        0 <= k <= s.len(),
    ensures
        digits_value(s.subrange(0, k)) <= digits_value(s),
    decreases s.len() - k,
{
    if k < s.len() {
        lemma_digits_grow(s, k + 1);
        assert(s.subrange(0, k + 1).drop_last() =~= s.subrange(0, k));
    } else {
        assert(s.subrange(0, k) =~= s);
    }
}

/// The value of the digit `c`, if it is one.
pub fn digit_of(c: char) -> (d: Option<u32>)
    ensures
        d == (if is_digit(c) {
            Some(digit_value(c) as u32)
        } else {
            None
        }),
        d matches Some(v) ==> v < 10,
{
    if c >= '0' && c <= '9' {
        Some(c as u32 - '0' as u32)
    } else {
        None
    }
}

/// The number that the characters `from..to` of `text` write.
pub fn parse_number(text: &str, from: usize, to: usize) -> (n: Option<u32>)
    requires
        from <= to <= text@.len(),
    ensures
        n == number(text@.subrange(from as int, to as int)),
{
    let ghost s = text@.subrange(from as int, to as int);
    let mut i: usize = from;
    if i < to && text.get_char(i) == '+' {
        i += 1;
    }
    let start = i;
    let ghost digits = text@.subrange(start as int, to as int);
    proof {
        if start > from {
            assert(s[0] == '+');
            assert(s.drop_first() =~= digits);
        } else {
            assert(s =~= digits);
            if s.len() > 0 {
                assert(s[0] == text@[from as int]);
            }
        }
    }
    if i == to {
        return None;
    }
    let mut value: u64 = 0;
    assert(digits.subrange(0, 0) =~= Seq::<char>::empty());
    while i < to
        invariant
            start <= i <= to <= text@.len(),
            digits == text@.subrange(start as int, to as int),
            number(text@.subrange(from as int, to as int)) == unsigned(digits),
            forall|k: int| 0 <= k < i - start ==> is_digit(#[trigger] digits[k]),
            value == digits_value(digits.subrange(0, i - start)),
            value <= u32::MAX,
        decreases to - i,
    {
        let c = text.get_char(i);
        assert(digits[i - start] == c);
        proof {
            assert(digits.subrange(0, i - start + 1).drop_last() =~= digits.subrange(0, i - start));
        }
        match digit_of(c) {
            None => {
                return None;
            },
            Some(d) => {
                let next = value * 10 + d as u64;
                if next > u32::MAX as u64 {
                    proof {
                        lemma_digits_grow(digits, i - start + 1);
                    }
                    return None;
                }
                value = next;
            },
        }
        i += 1;
    }
    assert(digits.subrange(0, i - start) =~= digits);
    Some(value as u32)
}

/// The position of the first `-` of `text`, if it has one.
fn find_dash(text: &str) -> (found: Option<usize>)
    ensures
        match found {
            Some(at) => first_dash(text@, at as int),
            None => !exists|at: int| first_dash(text@, at),
        },
{
    let n = text.unicode_len();
    let mut i: usize = 0;
    while i < n
        invariant
            i <= n,
            n == text@.len(),
            forall|k: int| 0 <= k < i ==> #[trigger] text@[k] != '-',
        decreases n - i,
    {
        if text.get_char(i) == '-' {
            return Some(i);
        }
        i += 1;
    }
    None
}

/// Reads a page selection: `N` for the single page `N`, or `N-M` for the
/// pages `N` to `M`, with `1 <= N <= M`.
///
/// A number is written as an optional `+` and one decimal digit or more,
/// and is at most `u32::MAX`. Any other token fails with
/// `InvalidSelectionSyntax`, which names the token.
pub fn parse_selection(token: &str) -> (result: Result<PageRange, PdfError>)
    ensures
        match result {
            Ok(range) => selection(token@) == Some(range),
            Err(e) => selection(token@) is None && (e matches PdfError::InvalidSelectionSyntax {
                token: named,
            } && named@ == token@),
        },
{
    let n = token.unicode_len();
    let parsed = match find_dash(token) {
        Some(at) => {
            proof {
                let chosen = choose|chosen: int| first_dash(token@, chosen);
                if chosen < at {
                    assert(token@[chosen] != '-');
                } else if at < chosen {
                    assert(token@[at as int] != '-');
                }
            }
            match (parse_number(token, 0, at), parse_number(token, at + 1, n)) {
                (Some(start), Some(end)) => if 1 <= start && start <= end {
                    Some(PageRange { start, end })
                } else {
                    None
                },
                _ => None,
            }
        },
        None => {
            assert(token@.subrange(0, n as int) =~= token@);
            match parse_number(token, 0, n) {
                Some(page) => if 1 <= page {
                    Some(PageRange { start: page, end: page })
                } else {
                    None
                },
                None => None,
            }
        },
    };
    match parsed {
        Some(range) => Ok(range),
        None => Err(PdfError::InvalidSelectionSyntax { token: token.to_owned() }),
    }
}

/// The digit that writes `d`.
pub open spec fn digit_char(d: nat) -> char {
    if d == 0 {
        '0'
    } else if d == 1 {
        '1'
    } else if d == 2 {
        '2'
    } else if d == 3 {
        '3'
    } else if d == 4 {
        '4'
    } else if d == 5 {
        '5'
    } else if d == 6 {
        '6'
    } else if d == 7 {
        '7'
    } else if d == 8 {
        '8'
    } else {
        '9'
    }
}

/// The decimal numeral of `n`, without leading zeros.
pub open spec fn decimal(n: nat) -> Seq<char>
    decreases n,
{
    if n < 10 {
        seq![digit_char(n)]
    } else {
        decimal(n / 10).push(digit_char(n % 10))
    }
}

/// The name of the file that holds the pages `first` to `last`:
/// `page_<first>.pdf` for one page, `pages_<first>-<last>.pdf` for several.
pub open spec fn file_name(first: u32, last: u32, several: bool) -> Seq<char> {
    if several {
        "pages_"@ + decimal(first as nat) + "-"@ + decimal(last as nat) + ".pdf"@
    } else {
        "page_"@ + decimal(first as nat) + ".pdf"@
    }
}

/// The text of the digit `d`.
fn digit_text(d: u32) -> (text: &'static str)
    requires
        d < 10,
    ensures
        text@ == seq![digit_char(d as nat)],
{
    proof {
        reveal_strlit("0");
        reveal_strlit("1");
        reveal_strlit("2");
        reveal_strlit("3");
        reveal_strlit("4");
        reveal_strlit("5");
        reveal_strlit("6");
        reveal_strlit("7");
        reveal_strlit("8");
        reveal_strlit("9");
    }
    let text = if d == 0 {
        "0"
    } else if d == 1 {
        "1"
    } else if d == 2 {
        "2"
    } else if d == 3 {
        "3"
    } else if d == 4 {
        "4"
    } else if d == 5 {
        "5"
    } else if d == 6 {
        "6"
    } else if d == 7 {
        "7"
    } else if d == 8 {
        "8"
    } else {
        "9"
    };
    assert(text@ =~= seq![digit_char(d as nat)]);
    text
}

/// Appends the decimal numeral of `n` to `out`.
pub fn push_decimal(n: u32, out: &mut String)
    ensures
        final(out)@ == old(out)@ + decimal(n as nat),
    decreases n,
{
    let ghost before = out@;
    if n >= 10 {
        push_decimal(n / 10, out);
    }
    out.append(digit_text(n % 10));
    proof {
        if n >= 10 {
            assert(out@ =~= before + decimal(n as nat));
        } else {
            assert(out@ =~= before + decimal(n as nat));
        }
    }
}

/// The name of the file that holds the given pages: `page_<N>.pdf` for the
/// single page `N`, `pages_<first>-<last>.pdf` for several, named by the
/// first and the last of them. `None` where no page is given.
pub fn output_name(pages: &Vec<u32>) -> (name: Option<String>)
    ensures
        match name {
            Some(text) => pages@.len() > 0 && text@ == file_name(
                pages@[0],
                pages@[pages@.len() - 1],
                pages@.len() > 1,
            ),
            None => pages@.len() == 0,
        },
{
    if pages.len() == 0 {
        return None;
    }
    let first = pages[0];
    let last = pages[pages.len() - 1];
    let mut text = String::new();
    if pages.len() > 1 {
        text.append("pages_");
        push_decimal(first, &mut text);
        text.append("-");
        push_decimal(last, &mut text);
        text.append(".pdf");
        assert(text@ =~= file_name(first, last, true));
    } else {
        text.append("page_");
        push_decimal(first, &mut text);
        text.append(".pdf");
        assert(text@ =~= file_name(first, last, false));
    }
    Some(text)
}

} // verus!
