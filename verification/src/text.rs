//! Text forms: decimal numerals for the integers, and the impls of the key,
//! value and text traits for strings and integers.

use crate::traits::{Key, Text, Value};
use vstd::prelude::*;
use vstd::string::StrSliceExecFns;
use vstd::string::StringExecFns;

verus! {

/// The character of a decimal digit.
pub open spec fn digit_char(d: nat) -> char {
    if d == 0 {
        '0'
    } else if d == 1 {
        '1'
    } else if d == 2 {
        '2'
    } else if d == 3 {
        '3'
    } else if d == 4 {
        '4'
    } else if d == 5 {
        '5'
    } else if d == 6 {
        '6'
    } else if d == 7 {
        '7'
    } else if d == 8 {
        '8'
    } else {
        '9'
    }
}

/// The digit that a character stands for, if it is a decimal digit.
pub open spec fn digit_value(c: char) -> Option<nat> {
    if c == '0' {
        Some(0nat)
    } else if c == '1' {
        Some(1nat)
    } else if c == '2' {
        Some(2nat)
    } else if c == '3' {
        Some(3nat)
    } else if c == '4' {
        Some(4nat)
    } else if c == '5' {
        Some(5nat)
    } else if c == '6' {
        Some(6nat)
    } else if c == '7' {
        Some(7nat)
    } else if c == '8' {
        Some(8nat)
    } else if c == '9' {
        Some(9nat)
    } else {
        None
    }
}

/// The decimal numeral of `n`, without leading zeros.
pub open spec fn digits_of(n: nat) -> Seq<char>
    decreases n,
{
    if n < 10 {
        seq![digit_char(n)]
    } else {
        digits_of(n / 10).push(digit_char(n % 10))
    }
}

/// The number that a non-empty sequence of decimal digits stands for;
/// leading zeros are accepted.
pub open spec fn digits_value(s: Seq<char>) -> Option<nat>
    decreases s.len(),
{
    if s.len() == 0 {
        None
    } else {
        match digit_value(s.last()) {
            None => None,
            Some(d) => if s.len() == 1 {
                Some(d)
            } else {
                match digits_value(s.drop_last()) {
                    Some(r) => Some(10 * r + d),
                    None => None,
                }
            },
        }
    }
}

/// The decimal text of an integer: a `-` before the numeral of a negative one.
pub open spec fn int_text(v: int) -> Seq<char> {
    if v < 0 {
        seq!['-'] + digits_of((-v) as nat)
    } else {
        digits_of(v as nat)
    }
}

/// The integer that a text stands for: an optional `+` or `-`, then one or
/// more decimal digits.
pub open spec fn int_parse(s: Seq<char>) -> Option<int> {
    if s.len() > 0 && s[0] == '-' {
        match digits_value(s.drop_first()) {
            Some(m) => Some(-(m as int)),
            None => None,
        }
    } else if s.len() > 0 && s[0] == '+' {
        match digits_value(s.drop_first()) {
            Some(m) => Some(m as int),
            None => None,
        }
    } else {
        match digits_value(s) {
            Some(m) => Some(m as int),
            None => None,
        }
    }
}

/// The integer that a text stands for, where it lies between `lo` and `hi`.
pub open spec fn int_parse_within(s: Seq<char>, lo: int, hi: int) -> Option<int> {
    match int_parse(s) {
        Some(v) => if lo <= v <= hi {
            Some(v)
        } else {
            None
        },
        None => None,
    }
}

/// A numeral is made of digits and reads back as its number.
pub proof fn lemma_digits_read_back(n: nat)
    ensures
        digits_of(n).len() > 0,
        digits_value(digits_of(n)) == Some(n),
        forall|i: int| 0 <= i < digits_of(n).len() ==> digit_value(#[trigger] digits_of(n)[i]) is Some,
    decreases n,
{
    if n < 10 {
        assert(digit_value(digit_char(n)) == Some(n));
        assert(digits_of(n).last() == digit_char(n));
    } else {
        lemma_digits_read_back(n / 10);
        let s = digits_of(n);
        let d = n % 10;
        assert(digit_value(digit_char(d)) == Some(d));
        assert(s.last() == digit_char(d));
        assert(s.drop_last() =~= digits_of(n / 10));
        assert forall|i: int| 0 <= i < s.len() implies digit_value(#[trigger] s[i]) is Some by {
            if i < s.len() - 1 {
                assert(s[i] == digits_of(n / 10)[i]);
            }
        }
    }
}

/// The text of an integer reads back as that integer.
pub proof fn lemma_int_reads_back(v: int)
    ensures
        int_parse(int_text(v)) == Some(v),
{
    if v < 0 {
        let m = (-v) as nat;
        lemma_digits_read_back(m);
        assert(int_text(v).drop_first() =~= digits_of(m));
    } else {
        let m = v as nat;
        lemma_digits_read_back(m);
        let s = digits_of(m);
        assert(digit_value(s[0]) is Some);
    }
}

/// The text of an integer is not empty and holds no `=`.
pub proof fn lemma_int_text_plain(v: int)
    ensures
        int_text(v).len() > 0,
        forall|i: int| 0 <= i < int_text(v).len() ==> #[trigger] int_text(v)[i] != '=',
{
    let m = if v < 0 {
        (-v) as nat
    } else {
        v as nat
    };
    lemma_digits_read_back(m);
    let s = int_text(v);
    assert forall|i: int| 0 <= i < s.len() implies #[trigger] s[i] != '=' by {
        if v < 0 {
            if i > 0 {
                assert(s[i] == digits_of(m)[i - 1]);
                assert(digit_value(digits_of(m)[i - 1]) is Some);
            }
        } else {
            assert(digit_value(digits_of(m)[i]) is Some);
        }
    }
}

/// The one-character text of a decimal digit.
fn digit_str(d: u8) -> (s: &'static str)
    requires
        d < 10,
    ensures
        s@ == seq![digit_char(d as nat)],
{
    if d == 0 {
        proof {
            reveal_strlit("0");
        }
        assert("0"@ =~= seq![digit_char(0nat)]);
        "0"
    } else if d == 1 {
        proof {
            reveal_strlit("1");
        }
        assert("1"@ =~= seq![digit_char(1nat)]);
        "1"
    } else if d == 2 {
        proof {
            reveal_strlit("2");
        }
        assert("2"@ =~= seq![digit_char(2nat)]);
        "2"
    } else if d == 3 {
        proof {
            reveal_strlit("3");
        }
        assert("3"@ =~= seq![digit_char(3nat)]);
        "3"
    } else if d == 4 {
        proof {
            reveal_strlit("4");
        }
        assert("4"@ =~= seq![digit_char(4nat)]);
        "4"
    } else if d == 5 {
        proof {
            reveal_strlit("5");
        }
        assert("5"@ =~= seq![digit_char(5nat)]);
        "5"
    } else if d == 6 {
        proof {
            reveal_strlit("6");
        }
        assert("6"@ =~= seq![digit_char(6nat)]);
        "6"
    } else if d == 7 {
        proof {
            reveal_strlit("7");
        }
        assert("7"@ =~= seq![digit_char(7nat)]);
        "7"
    } else if d == 8 {
        proof {
            reveal_strlit("8");
        }
        assert("8"@ =~= seq![digit_char(8nat)]);
        "8"
    } else {
        proof {
            reveal_strlit("9");
        }
        assert("9"@ =~= seq![digit_char(9nat)]);
        "9"
    }
}

/// The digit that `c` stands for, if it is a decimal digit.
pub fn read_digit(c: char) -> (r: Option<u8>)
    ensures
        match r {
            Some(d) => digit_value(c) == Some(d as nat) && d < 10,
            None => digit_value(c) is None,
        },
{
    if c == '0' {
        Some(0u8)
    } else if c == '1' {
        Some(1u8)
    } else if c == '2' {
        Some(2u8)
    } else if c == '3' {
        Some(3u8)
    } else if c == '4' {
        Some(4u8)
    } else if c == '5' {
        Some(5u8)
    } else if c == '6' {
        Some(6u8)
    } else if c == '7' {
        Some(7u8)
    } else if c == '8' {
        Some(8u8)
    } else if c == '9' {
        Some(9u8)
    } else {
        None
    }
}

/// The decimal numeral of `n`.
pub fn write_digits(n: u128) -> (s: String)
    ensures
        s@ == digits_of(n as nat),
    decreases n,
{
    if n < 10 {
        String::from_str(digit_str(n as u8))
    } else {
        let mut s = write_digits(n / 10);
        s.append(digit_str((n % 10) as u8));
        s
    }
}

/// The decimal text of `v`.
pub fn write_int(v: i128) -> (s: String)
    ensures
        s@ == int_text(v as int),
{
    if v < 0 {
        let m = (-(v + 1)) as u128 + 1;
        proof {
            reveal_strlit("-");
        }
        assert("-"@ =~= seq!['-']);
        String::from_str("-").concat(write_digits(m).as_str())
    } else {
        write_digits(v as u128)
    }
}

/// Where a text stands for a number, so does each of its non-empty prefixes,
/// and for no greater one.
pub proof fn lemma_digits_prefix(s: Seq<char>, j: int)
    requires
        0 < j <= s.len(),
        digits_value(s) is Some,
    ensures
        digits_value(s.take(j)) is Some,
        digits_value(s.take(j)).unwrap() <= digits_value(s).unwrap(),
    decreases s.len(),
{
    if j == s.len() {
        assert(s.take(j) =~= s);
    } else {
        assert(s.drop_last().take(j) =~= s.take(j));
        lemma_digits_prefix(s.drop_last(), j);
    }
}

/// A text with a character that is no digit stands for no number.
pub proof fn lemma_digits_all(s: Seq<char>, i: int)
    requires
        0 <= i < s.len(),
        digit_value(s[i]) is None,
    ensures
        digits_value(s) is None,
    decreases s.len(),
{
    if i < s.len() - 1 {
        lemma_digits_all(s.drop_last(), i);
    }
}

/// The number that `s` stands for, where it stands for one that is at most
/// `limit`.
pub fn read_digits(s: &str, limit: u128) -> (r: Option<u128>)
    ensures
        match r {
            Some(m) => digits_value(s@) == Some(m as nat) && m <= limit,
            None => match digits_value(s@) {
                Some(m) => m > limit,
                None => true,
            },
        },
{
    let n = s.unicode_len();
    if n == 0 {
        return None;
    }
    let mut acc: u128 = 0;
    let mut i: usize = 0;
    while i < n
        invariant
            i <= n,
            n == s@.len(),
            acc <= limit,
            i == 0 ==> acc == 0,
            i > 0 ==> digits_value(s@.take(i as int)) == Some(acc as nat),
        decreases n - i,
    {
        let c = s.get_char(i);
        let ghost head = s@.take(i + 1);
        assert(head.last() == c);
        assert(head.drop_last() =~= s@.take(i as int));
        match read_digit(c) {
            None => {
                proof {
                    lemma_digits_all(s@, i as int);
                }
                return None;
            },
            Some(d) => {
                assert(digits_value(head) == Some((10 * acc + d) as nat));
                if acc > limit / 10 || d as u128 > limit - acc * 10 {
                    proof {
                        if digits_value(s@) is Some {
                            lemma_digits_prefix(s@, i + 1);
                        }
                    }
                    return None;
                }
                acc = acc * 10 + d as u128;
            },
        }
        i += 1;
    }
    assert(s@.take(n as int) =~= s@);
    Some(acc)
}

/// The integer that `s` stands for, where it stands for one between `lo` and
/// `hi`.
pub fn read_int(s: &str, lo: i128, hi: i128) -> (r: Option<i128>)
    ensures
        match r {
            Some(v) => int_parse_within(s@, lo as int, hi as int) == Some(v as int),
            None => int_parse_within(s@, lo as int, hi as int) is None,
        },
{
    let n = s.unicode_len();
    if n == 0 {
        return None;
    }
    let c = s.get_char(0);
    if c == '-' {
        if lo > 0 {
            return None;
        }
        let limit = if lo == 0 {
            0
        } else {
            (-(lo + 1)) as u128 + 1
        };
        let v = match read_digits(s.substring_char(1, n), limit) {
            Some(m) => if m == 0 {
                0
            } else {
                -((m - 1) as i128) - 1
            },
            None => {
                return None;
            },
        };
        if v <= hi {
            Some(v)
        } else {
            None
        }
    } else {
        if hi < 0 {
            return None;
        }
        let found = if c == '+' {
            read_digits(s.substring_char(1, n), hi as u128)
        } else {
            assert(s@.subrange(0, n as int) =~= s@);
            read_digits(s, hi as u128)
        };
        match found {
            Some(m) => if m as i128 >= lo {
                Some(m as i128)
            } else {
                None
            },
            None => None,
        }
    }
}

impl Key for String {
    fn same(&self, other: &Self) -> (r: bool) {
        *self == *other
    }
}

impl Value for String {
    fn duplicate(&self) -> (r: Self) {
        self.clone()
    }
}

impl Text for String {
    open spec fn text_of(v: Seq<char>) -> Seq<char> {
        v
    }

    open spec fn parse_of(s: Seq<char>) -> Option<Seq<char>> {
        Some(s)
    }

    proof fn lemma_text_reads_back(v: Seq<char>) {
    }

    fn to_text(&self) -> (s: String) {
        self.clone()
    }

    fn from_text(s: &str) -> (r: Option<Self>) {
        Some(String::from_str(s))
    }
}

impl Key for i32 {
    fn same(&self, other: &Self) -> (r: bool) {
        *self == *other
    }
}

impl Value for i32 {
    fn duplicate(&self) -> (r: Self) {
        *self
    }
}

impl Text for i32 {
    open spec fn text_of(v: i32) -> Seq<char> {
        int_text(v as int)
    }

    open spec fn parse_of(s: Seq<char>) -> Option<i32> {
        match int_parse_within(s, -0x8000_0000, 0x7fff_ffff) {
            Some(v) => Some(v as i32),
            None => None,
        }
    }

    proof fn lemma_text_reads_back(v: i32) {
        lemma_int_reads_back(v as int);
    }

    fn to_text(&self) -> (s: String) {
        write_int(*self as i128)
    }

    fn from_text(s: &str) -> (r: Option<Self>) {
        match read_int(s, -0x8000_0000, 0x7fff_ffff) {
            Some(v) => Some(v as i32),
            None => None,
        }
    }
}

impl Key for i64 {
    fn same(&self, other: &Self) -> (r: bool) {
        *self == *other
    }
}

impl Value for i64 {
    fn duplicate(&self) -> (r: Self) {
        *self
    }
}

impl Text for i64 {
    open spec fn text_of(v: i64) -> Seq<char> {
        int_text(v as int)
    }

    open spec fn parse_of(s: Seq<char>) -> Option<i64> {
        match int_parse_within(s, -0x8000_0000_0000_0000, 0x7fff_ffff_ffff_ffff) {
            Some(v) => Some(v as i64),
            None => None,
        }
    }

    proof fn lemma_text_reads_back(v: i64) {
        lemma_int_reads_back(v as int);
    }

    fn to_text(&self) -> (s: String) {
        write_int(*self as i128)
    }

    fn from_text(s: &str) -> (r: Option<Self>) {
        match read_int(s, -0x8000_0000_0000_0000, 0x7fff_ffff_ffff_ffff) {
            Some(v) => Some(v as i64),
            None => None,
        }
    }
}

impl Key for u32 {
    fn same(&self, other: &Self) -> (r: bool) {
        *self == *other
    }
}

impl Value for u32 {
    fn duplicate(&self) -> (r: Self) {
        *self
    }
}

impl Text for u32 {
    open spec fn text_of(v: u32) -> Seq<char> {
        int_text(v as int)
    }

    open spec fn parse_of(s: Seq<char>) -> Option<u32> {
        match int_parse_within(s, 0, 0xffff_ffff) {
            Some(v) => Some(v as u32),
            None => None,
        }
    }

    proof fn lemma_text_reads_back(v: u32) {
        lemma_int_reads_back(v as int);
    }

    fn to_text(&self) -> (s: String) {
        write_int(*self as i128)
    }

    fn from_text(s: &str) -> (r: Option<Self>) {
        match read_int(s, 0, 0xffff_ffff) {
            Some(v) => Some(v as u32),
            None => None,
        }
    }
}

impl Key for u64 {
    fn same(&self, other: &Self) -> (r: bool) {
        *self == *other
    }
}

impl Value for u64 {
    fn duplicate(&self) -> (r: Self) {
        *self
    }
}

impl Text for u64 {
    open spec fn text_of(v: u64) -> Seq<char> {
        int_text(v as int)
    }

    open spec fn parse_of(s: Seq<char>) -> Option<u64> {
        match int_parse_within(s, 0, 0xffff_ffff_ffff_ffff) {
            Some(v) => Some(v as u64),
            None => None,
        }
    }

    proof fn lemma_text_reads_back(v: u64) {
        lemma_int_reads_back(v as int);
    }

    fn to_text(&self) -> (s: String) {
        write_int(*self as i128)
    }

    fn from_text(s: &str) -> (r: Option<Self>) {
        match read_int(s, 0, 0xffff_ffff_ffff_ffff) {
            Some(v) => Some(v as u64),
            None => None,
        }
    }
}

impl Key for i8 {
    fn same(&self, other: &Self) -> (r: bool) {
        *self == *other
    }
}

impl Value for i8 {
    fn duplicate(&self) -> (r: Self) {
        *self
    }
}

impl Text for i8 {
    open spec fn text_of(v: i8) -> Seq<char> {
        int_text(v as int)
    }

    open spec fn parse_of(s: Seq<char>) -> Option<i8> {
        match int_parse_within(s, -0x80, 0x7f) {
            Some(v) => Some(v as i8),
            None => None,
        }
    }

    proof fn lemma_text_reads_back(v: i8) {
        lemma_int_reads_back(v as int);
    }

    fn to_text(&self) -> (s: String) {
        write_int(*self as i128)
    }

    fn from_text(s: &str) -> (r: Option<Self>) {
        match read_int(s, -0x80, 0x7f) {
            Some(v) => Some(v as i8),
            None => None,
        }
    }
}

impl Key for i16 {
    fn same(&self, other: &Self) -> (r: bool) {
        *self == *other
    }
}

impl Value for i16 {
    fn duplicate(&self) -> (r: Self) {
        *self
    }
}

impl Text for i16 {
    open spec fn text_of(v: i16) -> Seq<char> {
        int_text(v as int)
    }

    open spec fn parse_of(s: Seq<char>) -> Option<i16> {
        match int_parse_within(s, -0x8000, 0x7fff) {
            Some(v) => Some(v as i16),
            None => None,
        }
    }

    proof fn lemma_text_reads_back(v: i16) {
        lemma_int_reads_back(v as int);
    }

    fn to_text(&self) -> (s: String) {
        write_int(*self as i128)
    }

    fn from_text(s: &str) -> (r: Option<Self>) {
        match read_int(s, -0x8000, 0x7fff) {
            Some(v) => Some(v as i16),
            None => None,
        }
    }
}

impl Key for isize {
    fn same(&self, other: &Self) -> (r: bool) {
        *self == *other
    }
}

impl Value for isize {
    fn duplicate(&self) -> (r: Self) {
        *self
    }
}

impl Text for isize {
    open spec fn text_of(v: isize) -> Seq<char> {
        int_text(v as int)
    }

    open spec fn parse_of(s: Seq<char>) -> Option<isize> {
        match int_parse_within(s, isize::MIN as int, isize::MAX as int) {
            Some(v) => Some(v as isize),
            None => None,
        }
    }

    proof fn lemma_text_reads_back(v: isize) {
        lemma_int_reads_back(v as int);
    }

    fn to_text(&self) -> (s: String) {
        write_int(*self as i128)
    }

    fn from_text(s: &str) -> (r: Option<Self>) {
        match read_int(s, isize::MIN as i128, isize::MAX as i128) {
            Some(v) => Some(v as isize),
            None => None,
        }
    }
}

impl Key for u8 {
    fn same(&self, other: &Self) -> (r: bool) {
        *self == *other
    }
}

impl Value for u8 {
    fn duplicate(&self) -> (r: Self) {
        *self
    }
}

impl Text for u8 {
    open spec fn text_of(v: u8) -> Seq<char> {
        int_text(v as int)
    }

    open spec fn parse_of(s: Seq<char>) -> Option<u8> {
        match int_parse_within(s, 0, 0xff) {
            Some(v) => Some(v as u8),
            None => None,
        }
    }

    proof fn lemma_text_reads_back(v: u8) {
        lemma_int_reads_back(v as int);
    }

    fn to_text(&self) -> (s: String) {
        write_int(*self as i128)
    }

    fn from_text(s: &str) -> (r: Option<Self>) {
        match read_int(s, 0, 0xff) {
            Some(v) => Some(v as u8),
            None => None,
        }
    }
}

impl Key for u16 {
    fn same(&self, other: &Self) -> (r: bool) {
        *self == *other
    }
}

impl Value for u16 {
    fn duplicate(&self) -> (r: Self) {
        *self
    }
}

impl Text for u16 {
    open spec fn text_of(v: u16) -> Seq<char> {
        int_text(v as int)
    }

    open spec fn parse_of(s: Seq<char>) -> Option<u16> {
        match int_parse_within(s, 0, 0xffff) {
            Some(v) => Some(v as u16),
            None => None,
        }
    }

    proof fn lemma_text_reads_back(v: u16) {
        lemma_int_reads_back(v as int);
    }

    fn to_text(&self) -> (s: String) {
        write_int(*self as i128)
    }

    fn from_text(s: &str) -> (r: Option<Self>) {
        match read_int(s, 0, 0xffff) {
            Some(v) => Some(v as u16),
            None => None,
        }
    }
}

impl Key for usize {
    fn same(&self, other: &Self) -> (r: bool) {
        *self == *other
    }
}

impl Value for usize {
    fn duplicate(&self) -> (r: Self) {
        *self
    }
}

impl Text for usize {
    open spec fn text_of(v: usize) -> Seq<char> {
        int_text(v as int)
    }

    open spec fn parse_of(s: Seq<char>) -> Option<usize> {
        match int_parse_within(s, 0, usize::MAX as int) {
            Some(v) => Some(v as usize),
            None => None,
        }
    }

    proof fn lemma_text_reads_back(v: usize) {
        lemma_int_reads_back(v as int);
    }

    fn to_text(&self) -> (s: String) {
        write_int(*self as i128)
    }

    fn from_text(s: &str) -> (r: Option<Self>) {
        match read_int(s, 0, usize::MAX as i128) {
            Some(v) => Some(v as usize),
            None => None,
        }
    }
}

} // verus!
