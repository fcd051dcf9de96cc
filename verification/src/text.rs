use vstd::prelude::*;
use vstd::string::StrSliceExecFns;

verus! {

/// The White_Space characters that trimming removes.
pub open spec fn is_space_char(c: char) -> bool {
    let u = c as u32;
    (9 <= u && u <= 13) || u == 32 || u == 0x85 || u == 0xA0 || u == 0x1680 || (0x2000 <= u && u
        <= 0x200A) || u == 0x2028 || u == 0x2029 || u == 0x202F || u == 0x205F || u == 0x3000
}

/// A string is non-empty after trimming whitespace exactly when it holds
/// at least one non-whitespace character.
pub open spec fn trimmed_nonempty(s: Seq<char>) -> bool {
    exists|i: int| 0 <= i < s.len() && !is_space_char(s[i])
}

/// Whether `s` still holds visible text once whitespace is trimmed away.
pub fn str_trimmed_nonempty(s: &str) -> (r: bool)
    ensures
        r == trimmed_nonempty(s@),
{
    let n = s.unicode_len();
    let mut i: usize = 0;
    while i < n
        invariant
            i <= n,
            n == s@.len(),
            forall|j: int| 0 <= j < i ==> is_space_char(s@[j]),
        decreases n - i,
    {
        let c = s.get_char(i);
        let u = c as u32;
        if !((9 <= u && u <= 13) || u == 32 || u == 0x85 || u == 0xA0 || u == 0x1680 || (0x2000
            <= u && u <= 0x200A) || u == 0x2028 || u == 0x2029 || u == 0x202F || u == 0x205F || u
            == 0x3000) {
            return true;
        }
        i += 1;
    }
    false
}

/// Character-for-character equality of two strings.
pub fn str_eq(a: &str, b: &str) -> (r: bool)
    ensures
        r == (a@ == b@),
{
    let alen = a.unicode_len();
    let blen = b.unicode_len();
    if alen != blen {
        return false;
    }
    let mut i: usize = 0;
    while i < alen
        invariant
            i <= alen,
            alen == a@.len(),
            alen == b@.len(),
            forall|j: int| 0 <= j < i ==> a@[j] == b@[j],
        decreases alen - i,
    {
        if a.get_char(i) != b.get_char(i) {
            return false;
        }
        i += 1;
    }
    proof {
        assert(a@ =~= b@);
    }
    true
}

/// Lexicographic order on character sequences: compare code points at the
/// first differing position; a prefix comes before any of its extensions.
pub open spec fn lex_le(a: Seq<char>, b: Seq<char>) -> bool
    decreases a.len(),
{
    if a.len() == 0 {
        true
    } else if b.len() == 0 {
        false
    } else if (a[0] as u32) < (b[0] as u32) {
        true
    } else if (a[0] as u32) > (b[0] as u32) {
        false
    } else {
        lex_le(a.skip(1), b.skip(1))
    }
}

/// Decide the lexicographic order of two strings.
pub fn str_lex_le(a: &str, b: &str) -> (r: bool)
    ensures
        r == lex_le(a@, b@),
{
    let alen = a.unicode_len();
    let blen = b.unicode_len();
    let min: usize = if alen < blen {
        alen
    } else {
        blen
    };
    let mut r: bool = alen <= blen;
    proof {
        if alen <= blen {
            assert(a@.skip(min as int).len() == 0);
        } else {
            assert(b@.skip(min as int).len() == 0);
            assert(a@.skip(min as int).len() > 0);
        }
    }
    let mut i: usize = min;
    while i > 0
        invariant
            i <= min,
            min <= alen,
            min <= blen,
            alen == a@.len(),
            blen == b@.len(),
            r == lex_le(a@.skip(i as int), b@.skip(i as int)),
        decreases i,
    {
        i = i - 1;
        let ca = a.get_char(i);
        let cb = b.get_char(i);
        proof {
            assert(a@.skip(i as int).len() > 0);
            assert(b@.skip(i as int).len() > 0);
            assert(a@.skip(i as int)[0] == a@[i as int]);
            assert(b@.skip(i as int)[0] == b@[i as int]);
            assert(a@.skip(i as int).skip(1) =~= a@.skip(i + 1));
            assert(b@.skip(i as int).skip(1) =~= b@.skip(i + 1));
        }
        if (ca as u32) < (cb as u32) {
            r = true;
        } else if (ca as u32) > (cb as u32) {
            r = false;
        }
    }
    proof {
        assert(a@.skip(0) =~= a@);
        assert(b@.skip(0) =~= b@);
    }
    r
}

/// The digit characters '0' through '9'.
pub open spec fn is_digit_char(c: char) -> bool {
    48 <= (c as u32) && (c as u32) <= 57
}

/// The numeric value of a digit character.
pub open spec fn digit_val(c: char) -> int {
    (c as u32) - 48
}

/// Every character of the sequence is a digit.
pub open spec fn all_digits(s: Seq<char>) -> bool {
    forall|i: int| 0 <= i < s.len() ==> is_digit_char(#[trigger] s[i])
}

/// The number a digit sequence denotes in decimal.
pub open spec fn digits_val(s: Seq<char>) -> int
    decreases s.len(),
{
    if s.len() == 0 {
        0
    } else {
        digits_val(s.drop_last()) * 10 + digit_val(s.last())
    }
}

/// A digit sequence denotes a non-negative number.
pub proof fn lemma_digits_val_nonneg(s: Seq<char>)
    requires
        all_digits(s),
    ensures
        digits_val(s) >= 0,
    decreases s.len(),
{
    if s.len() > 0 {
        assert(s.last() == s[s.len() - 1]);
        lemma_digits_val_nonneg(s.drop_last());
    }
}

/// A prefix of a digit sequence denotes no more than the whole.
pub proof fn lemma_digits_val_prefix(s: Seq<char>, x: int)
    requires
        all_digits(s),
        0 <= x <= s.len(),
    ensures
        digits_val(s.take(x)) <= digits_val(s),
    decreases s.len(),
{
    if x == s.len() {
        assert(s.take(x) =~= s);
    } else if s.len() > 0 {
        let bl = s.drop_last();
        assert(bl.take(x) =~= s.take(x));
        lemma_digits_val_prefix(bl, x);
        lemma_digits_val_nonneg(bl);
        assert(s.last() == s[s.len() - 1]);
    }
}

/// Number of ':' characters in the sequence.
pub open spec fn colon_count(s: Seq<char>) -> int
    decreases s.len(),
{
    if s.len() == 0 {
        0
    } else {
        colon_count(s.drop_last()) + if s.last() == ':' {
            1int
        } else {
            0int
        }
    }
}

/// A sequence holding a ':' counts at least one.
pub proof fn lemma_colon_count_at_least_one(s: Seq<char>, a: int)
    requires
        0 <= a < s.len(),
        s[a] == ':',
    ensures
        colon_count(s) >= 1,
    decreases s.len(),
{
    if a == s.len() - 1 {
        assert(colon_count(s.drop_last()) >= 0) by {
            lemma_colon_count_nonneg(s.drop_last());
        }
    } else {
        lemma_colon_count_at_least_one(s.drop_last(), a);
        lemma_colon_count_nonneg(s);
    }
}

/// A colon count is never negative.
pub proof fn lemma_colon_count_nonneg(s: Seq<char>)
    ensures
        colon_count(s) >= 0,
    decreases s.len(),
{
    if s.len() > 0 {
        lemma_colon_count_nonneg(s.drop_last());
    }
}

/// A sequence holding two ':' characters counts at least two.
pub proof fn lemma_colon_count_at_least_two(s: Seq<char>, a: int, b: int)
    requires
        0 <= a < b < s.len(),
        s[a] == ':',
        s[b] == ':',
    ensures
        colon_count(s) >= 2,
    decreases s.len(),
{
    if b == s.len() - 1 {
        lemma_colon_count_at_least_one(s.drop_last(), a);
    } else {
        lemma_colon_count_at_least_two(s.drop_last(), a, b);
    }
}

/// The digit character for a value below ten.
pub open spec fn dchar(d: int) -> char {
    if d == 0 {
        '0'
    } else if d == 1 {
        '1'
    } else if d == 2 {
        '2'
    } else if d == 3 {
        '3'
    } else if d == 4 {
        '4'
    } else if d == 5 {
        '5'
    } else if d == 6 {
        '6'
    } else if d == 7 {
        '7'
    } else if d == 8 {
        '8'
    } else {
        '9'
    }
}

/// The one-character string for a digit value.
pub fn digit_str(d: u8) -> (r: &'static str)
    requires
        d < 10,
    ensures
        r@ =~= seq![dchar(d as int)],
{
    if d == 0 {
        proof {
            reveal_strlit("0");
            assert("0"@ =~= seq![dchar(0)]);
        }
        return "0";
    }
    if d == 1 {
        proof {
            reveal_strlit("1");
            assert("1"@ =~= seq![dchar(1)]);
        }
        return "1";
    }
    if d == 2 {
        proof {
            reveal_strlit("2");
            assert("2"@ =~= seq![dchar(2)]);
        }
        return "2";
    }
    if d == 3 {
        proof {
            reveal_strlit("3");
            assert("3"@ =~= seq![dchar(3)]);
        }
        return "3";
    }
    if d == 4 {
        proof {
            reveal_strlit("4");
            assert("4"@ =~= seq![dchar(4)]);
        }
        return "4";
    }
    if d == 5 {
        proof {
            reveal_strlit("5");
            assert("5"@ =~= seq![dchar(5)]);
        }
        return "5";
    }
    if d == 6 {
        proof {
            reveal_strlit("6");
            assert("6"@ =~= seq![dchar(6)]);
        }
        return "6";
    }
    if d == 7 {
        proof {
            reveal_strlit("7");
            assert("7"@ =~= seq![dchar(7)]);
        }
        return "7";
    }
    if d == 8 {
        proof {
            reveal_strlit("8");
            assert("8"@ =~= seq![dchar(8)]);
        }
        return "8";
    }
    proof {
        reveal_strlit("9");
        assert("9"@ =~= seq![dchar(9)]);
    }
    "9"
}

/// The letter character for a value below twenty-six, 0 being 'A'.
pub open spec fn uchar(d: int) -> char {
    if d == 0 {
        'A'
    } else if d == 1 {
        'B'
    } else if d == 2 {
        'C'
    } else if d == 3 {
        'D'
    } else if d == 4 {
        'E'
    } else if d == 5 {
        'F'
    } else if d == 6 {
        'G'
    } else if d == 7 {
        'H'
    } else if d == 8 {
        'I'
    } else if d == 9 {
        'J'
    } else if d == 10 {
        'K'
    } else if d == 11 {
        'L'
    } else if d == 12 {
        'M'
    } else if d == 13 {
        'N'
    } else if d == 14 {
        'O'
    } else if d == 15 {
        'P'
    } else if d == 16 {
        'Q'
    } else if d == 17 {
        'R'
    } else if d == 18 {
        'S'
    } else if d == 19 {
        'T'
    } else if d == 20 {
        'U'
    } else if d == 21 {
        'V'
    } else if d == 22 {
        'W'
    } else if d == 23 {
        'X'
    } else if d == 24 {
        'Y'
    } else {
        'Z'
    }
}

/// The one-character string for a letter value.
pub fn letter_str(d: u8) -> (r: &'static str)
    requires
        d < 26,
    ensures
        r@ =~= seq![uchar(d as int)],
{
    if d == 0 {
        proof {
            reveal_strlit("A");
            assert("A"@ =~= seq![uchar(0)]);
        }
        return "A";
    }
    if d == 1 {
        proof {
            reveal_strlit("B");
            assert("B"@ =~= seq![uchar(1)]);
        }
        return "B";
    }
    if d == 2 {
        proof {
            reveal_strlit("C");
            assert("C"@ =~= seq![uchar(2)]);
        }
        return "C";
    }
    if d == 3 {
        proof {
            reveal_strlit("D");
            assert("D"@ =~= seq![uchar(3)]);
        }
        return "D";
    }
    if d == 4 {
        proof {
            reveal_strlit("E");
            assert("E"@ =~= seq![uchar(4)]);
        }
        return "E";
    }
    if d == 5 {
        proof {
            reveal_strlit("F");
            assert("F"@ =~= seq![uchar(5)]);
        }
        return "F";
    }
    if d == 6 {
        proof {
            reveal_strlit("G");
            assert("G"@ =~= seq![uchar(6)]);
        }
        return "G";
    }
    if d == 7 {
        proof {
            reveal_strlit("H");
            assert("H"@ =~= seq![uchar(7)]);
        }
        return "H";
    }
    if d == 8 {
        proof {
            reveal_strlit("I");
            assert("I"@ =~= seq![uchar(8)]);
        }
        return "I";
    }
    if d == 9 {
        proof {
            reveal_strlit("J");
            assert("J"@ =~= seq![uchar(9)]);
        }
        return "J";
    }
    if d == 10 {
        proof {
            reveal_strlit("K");
            assert("K"@ =~= seq![uchar(10)]);
        }
        return "K";
    }
    if d == 11 {
        proof {
            reveal_strlit("L");
            assert("L"@ =~= seq![uchar(11)]);
        }
        return "L";
    }
    if d == 12 {
        proof {
            reveal_strlit("M");
            assert("M"@ =~= seq![uchar(12)]);
        }
        return "M";
    }
    if d == 13 {
        proof {
            reveal_strlit("N");
            assert("N"@ =~= seq![uchar(13)]);
        }
        return "N";
    }
    if d == 14 {
        proof {
            reveal_strlit("O");
            assert("O"@ =~= seq![uchar(14)]);
        }
        return "O";
    }
    if d == 15 {
        proof {
            reveal_strlit("P");
            assert("P"@ =~= seq![uchar(15)]);
        }
        return "P";
    }
    if d == 16 {
        proof {
            reveal_strlit("Q");
            assert("Q"@ =~= seq![uchar(16)]);
        }
        return "Q";
    }
    if d == 17 {
        proof {
            reveal_strlit("R");
            assert("R"@ =~= seq![uchar(17)]);
        }
        return "R";
    }
    if d == 18 {
        proof {
            reveal_strlit("S");
            assert("S"@ =~= seq![uchar(18)]);
        }
        return "S";
    }
    if d == 19 {
        proof {
            reveal_strlit("T");
            assert("T"@ =~= seq![uchar(19)]);
        }
        return "T";
    }
    if d == 20 {
        proof {
            reveal_strlit("U");
            assert("U"@ =~= seq![uchar(20)]);
        }
        return "U";
    }
    if d == 21 {
        proof {
            reveal_strlit("V");
            assert("V"@ =~= seq![uchar(21)]);
        }
        return "V";
    }
    if d == 22 {
        proof {
            reveal_strlit("W");
            assert("W"@ =~= seq![uchar(22)]);
        }
        return "W";
    }
    if d == 23 {
        proof {
            reveal_strlit("X");
            assert("X"@ =~= seq![uchar(23)]);
        }
        return "X";
    }
    if d == 24 {
        proof {
            reveal_strlit("Y");
            assert("Y"@ =~= seq![uchar(24)]);
        }
        return "Y";
    }
    proof {
        reveal_strlit("Z");
        assert("Z"@ =~= seq![uchar(25)]);
    }
    "Z"
}

/// The decimal rendering of a non-negative number.
pub open spec fn dec_chars(n: int) -> Seq<char>
    recommends
        n >= 0,
    decreases n,
{
    if n <= 9 {
        seq![dchar(n)]
    } else {
        dec_chars(n / 10).push(dchar(n % 10))
    }
}

/// The characters of a digit-value list read back to front.
pub open spec fn digits_rev_chars(ds: Seq<u8>) -> Seq<char>
    decreases ds.len(),
{
    if ds.len() == 0 {
        Seq::empty()
    } else {
        digits_rev_chars(ds.drop_first()) + seq![dchar(ds.first() as int)]
    }
}

/// Appending a digit value puts its character in front.
proof fn lemma_digits_rev_chars_push(ds: Seq<u8>, d: u8)
    ensures
        digits_rev_chars(ds.push(d)) =~= seq![dchar(d as int)] + digits_rev_chars(ds),
    decreases ds.len(),
{
    let p = ds.push(d);
    assert(p.len() == ds.len() + 1);
    assert(digits_rev_chars(p) == digits_rev_chars(p.drop_first()) + seq![
        dchar(p.first() as int),
    ]);
    if ds.len() == 0 {
        assert(p.first() == d);
        assert(p.drop_first() =~= Seq::<u8>::empty());
        assert(digits_rev_chars(Seq::<u8>::empty()) =~= Seq::<char>::empty());
    } else {
        assert(p.first() == ds.first());
        assert(p.drop_first() =~= ds.drop_first().push(d));
        lemma_digits_rev_chars_push(ds.drop_first(), d);
        assert(digits_rev_chars(ds) == digits_rev_chars(ds.drop_first()) + seq![
            dchar(ds.first() as int),
        ]);
    }
}

/// Render a number in decimal.
#[verifier::loop_isolation(false)]
pub fn u32_to_string(n: u32) -> (r: String)
    ensures
        r@ == dec_chars(n as int),
{
    let mut digits: Vec<u8> = Vec::new();
    let mut m: u32 = n;
    digits.push((m % 10) as u8);
    m = m / 10;
    proof {
        let ds0: Seq<u8> = Seq::empty();
        assert(digits@ =~= ds0.push((n % 10) as u8));
        assert(ds0.push((n % 10) as u8).drop_first() =~= ds0);
        lemma_digits_rev_chars_push(ds0, (n % 10) as u8);
    }
    while m > 0
        invariant
            dec_chars(n as int) =~= (if m > 0 {
                dec_chars(m as int)
            } else {
                Seq::<char>::empty()
            }) + digits_rev_chars(digits@),
            forall|i: int| 0 <= i < digits@.len() ==> (#[trigger] digits@[i]) < 10,
        decreases m,
    {
        let d: u8 = (m % 10) as u8;
        proof {
            lemma_digits_rev_chars_push(digits@, d);
        }
        digits.push(d);
        m = m / 10;
    }
    let mut out = String::new();
    let mut i: usize = digits.len();
    proof {
        assert(digits@.skip(i as int).len() == 0);
    }
    while i > 0
        invariant
            i <= digits@.len(),
            out@ == digits_rev_chars(digits@.skip(i as int)),
        decreases i,
    {
        i -= 1;
        out.append(digit_str(digits[i]));
        proof {
            assert(digits@.skip(i as int).drop_first() =~= digits@.skip(i as int + 1));
            assert(digits@.skip(i as int).first() == digits@[i as int]);
        }
    }
    proof {
        assert(digits@.skip(0) =~= digits@);
    }
    out
}

/// Lexicographic order is total: of any two strings, one comes first.
pub proof fn lemma_lex_le_total(a: Seq<char>, b: Seq<char>)
    ensures
        lex_le(a, b) || lex_le(b, a),
    decreases a.len(),
{
    if a.len() == 0 || b.len() == 0 {
    } else if (a[0] as u32) == (b[0] as u32) {
        lemma_lex_le_total(a.skip(1), b.skip(1));
    }
}

/// Lexicographic order is transitive.
pub proof fn lemma_lex_le_trans(a: Seq<char>, b: Seq<char>, c: Seq<char>)
    requires
        lex_le(a, b),
        lex_le(b, c),
    ensures
        lex_le(a, c),
    decreases a.len(),
{
    if a.len() == 0 {
    } else {
        if b.len() == 0 {
        } else if c.len() == 0 {
        } else {
            if (a[0] as u32) == (b[0] as u32) && (b[0] as u32) == (c[0] as u32) {
                lemma_lex_le_trans(a.skip(1), b.skip(1), c.skip(1));
            }
        }
    }
}

} // verus!
