use vstd::prelude::*;

verus! {

/// Whether two strings hold the same characters.
pub fn str_eq(a: &str, b: &str) -> (r: bool)
    ensures
        r == (a@ == b@),
{
    let n = a.unicode_len();
    if n != b.unicode_len() {
        return false;
    }
    let mut i: usize = 0;
    while i < n
        invariant
            n == a@.len(),
            n == b@.len(),
            i <= n,
            forall|j: int| 0 <= j < i ==> a@[j] == b@[j],
        decreases n - i,
    {
        if a.get_char(i) != b.get_char(i) {
            return false;
        }
        i += 1;
    }
    assert(a@ =~= b@);
    true
}


/// The character of a decimal digit.
pub open spec fn digit_char(d: int) -> char {
    (48 + d) as char
}

/// The decimal writing of a natural number.
pub open spec fn spec_decimal(n: nat) -> Seq<char>
    decreases n,
{
    if n < 10 {
        seq![digit_char(n as int)]
    } else {
        spec_decimal(n / 10).push(digit_char((n % 10) as int))
    }
}

fn digit_str(d: u64) -> (s: &'static str)
    requires
        d < 10,
    ensures
        s@ == seq![digit_char(d as int)],
{
    proof {
        reveal_strlit("0");
        reveal_strlit("1");
        reveal_strlit("2");
        reveal_strlit("3");
        reveal_strlit("4");
        reveal_strlit("5");
        reveal_strlit("6");
        reveal_strlit("7");
        reveal_strlit("8");
        reveal_strlit("9");
    }
    match d {
        0 => "0",
        1 => "1",
        2 => "2",
        3 => "3",
        4 => "4",
        5 => "5",
        6 => "6",
        7 => "7",
        8 => "8",
        _ => "9",
    }
}

/// Appends the decimal writing of `n` to `s`.
pub fn push_decimal(s: &mut String, n: u64)
    ensures
        final(s)@ == old(s)@ + spec_decimal(n as nat),
    decreases n,
{
    if n >= 10 {
        push_decimal(s, n / 10);
    }
    s.append(digit_str(n % 10));
    proof {
        if n >= 10 {
            assert(spec_decimal(n as nat) == spec_decimal((n / 10) as nat).push(digit_char((n % 10) as int)));
        }
    }
}

/// The decimal writing of `n`.
pub fn decimal(n: u64) -> (s: String)
    ensures
        s@ == spec_decimal(n as nat),
{
    let mut s = String::new();
    push_decimal(&mut s, n);
    assert(s@ =~= spec_decimal(n as nat));
    s
}

/// Whether a character is a decimal digit.
pub open spec fn is_digit(c: char) -> bool {
    '0' <= c <= '9'
}

/// The value of a run of decimal digits.
pub open spec fn digits_value(s: Seq<char>) -> nat
    decreases s.len(),
{
    if s.len() == 0 {
        0
    } else {
        digits_value(s.drop_last()) * 10 + ((s.last() as int - 48) as nat)
    }
}

/// A run of at least one digit whose value is at most `max`.
pub open spec fn spec_digits(d: Seq<char>, max: nat) -> Option<nat> {
    if d.len() == 0 || exists|i: int| 0 <= i < d.len() && !is_digit(#[trigger] d[i]) {
        None
    } else if digits_value(d) > max {
        None
    } else {
        Some(digits_value(d))
    }
}

/// An unsigned number as Rust's `parse` reads it: an optional `+`, then at
/// least one digit, and a value of at most `max`.
pub open spec fn spec_parse_unsigned(s: Seq<char>, max: nat) -> Option<nat> {
    if s.len() > 0 && s[0] == '+' {
        spec_digits(s.drop_first(), max)
    } else {
        spec_digits(s, max)
    }
}

/// A signed 64-bit number as Rust's `parse` reads it.
pub open spec fn spec_parse_i64(s: Seq<char>) -> Option<int> {
    if s.len() > 0 && s[0] == '-' {
        match spec_digits(s.drop_first(), 0x8000_0000_0000_0000) {
            Some(v) => Some(-v),
            None => None,
        }
    } else {
        match spec_parse_unsigned(s, 0x7fff_ffff_ffff_ffff) {
            Some(v) => Some(v as int),
            None => None,
        }
    }
}

/// The characters of a string, in order.
pub fn chars_of(s: &str) -> (v: Vec<char>)
    ensures
        v@ == s@,
{
    let n = s.unicode_len();
    let mut v: Vec<char> = Vec::new();
    let mut i: usize = 0;
    while i < n
        invariant
            n == s@.len(),
            i <= n,
            v@ =~= s@.take(i as int),
        decreases n - i,
    {
        v.push(s.get_char(i));
        i += 1;
    }
    assert(v@ =~= s@);
    v
}

/// Reads the digits `cs[from..to]` as a number of at most `max`.
fn read_digits(cs: &Vec<char>, from: usize, to: usize, max: u64) -> (r: Option<u64>)
    requires
        from <= to <= cs@.len(),
    ensures
        opt_nat(r) == spec_digits(cs@.subrange(from as int, to as int), max as nat),
{
    let ghost full = cs@.subrange(from as int, to as int);
    if from == to {
        return None;
    }
    let mut v: u64 = 0;
    let mut over = false;
    let mut i: usize = from;
    while i < to
        invariant
            from <= i <= to <= cs@.len(),
            full == cs@.subrange(from as int, to as int),
            forall|j: int| from <= j < i ==> is_digit(#[trigger] cs@[j]),
            !over ==> v == digits_value(cs@.subrange(from as int, i as int)) && v <= max,
            over ==> digits_value(cs@.subrange(from as int, i as int)) > max,
        decreases to - i,
    {
        let c = cs[i];
        if !('0' <= c && c <= '9') {
            assert(!is_digit(full[i - from]));
            return None;
        }
        let d = (c as u32 - 48) as u64;
        proof {
            let next = cs@.subrange(from as int, i + 1);
            assert(next.drop_last() =~= cs@.subrange(from as int, i as int));
            assert(next.last() == c);
            assert(digits_value(next) == digits_value(cs@.subrange(from as int, i as int)) * 10 + d);
        }
        if !over {
            if d > max || v > (max - d) / 10 {
                over = true;
            } else {
                v = v * 10 + d;
            }
        }
        i += 1;
    }
    assert(cs@.subrange(from as int, i as int) =~= full);
    if over {
        None
    } else {
        Some(v)
    }
}

/// An optional machine number as a natural number.
pub open spec fn opt_nat(r: Option<u64>) -> Option<nat> {
    match r {
        Some(v) => Some(v as nat),
        None => None,
    }
}

/// Parses the characters `cs[from..to]` as an unsigned number of at most
/// `max`, as Rust's `parse` does.
pub fn parse_unsigned_in(cs: &Vec<char>, from: usize, to: usize, max: u64) -> (r: Option<u64>)
    requires
        from <= to <= cs@.len(),
    ensures
        opt_nat(r) == spec_parse_unsigned(cs@.subrange(from as int, to as int), max as nat),
{
    let ghost t = cs@.subrange(from as int, to as int);
    if from < to && cs[from] == '+' {
        assert(cs@.subrange(from + 1, to as int) =~= t.drop_first());
        read_digits(cs, from + 1, to, max)
    } else {
        read_digits(cs, from, to, max)
    }
}

/// Parses an unsigned number of at most `max`, as Rust's `parse` does.
pub fn parse_unsigned(s: &str, max: u64) -> (r: Option<u64>)
    ensures
        opt_nat(r) == spec_parse_unsigned(s@, max as nat),
{
    let cs = chars_of(s);
    assert(cs@.subrange(0, cs@.len() as int) =~= s@);
    parse_unsigned_in(&cs, 0, cs.len(), max)
}

/// Parses a signed 64-bit number, as Rust's `parse` does.
pub fn parse_i64(s: &str) -> (r: Option<i64>)
    ensures
        (match r {
            Some(v) => Some(v as int),
            None => None,
        }) == spec_parse_i64(s@),
{
    let cs = chars_of(s);
    if cs.len() > 0 && cs[0] == '-' {
        assert(cs@.subrange(1, cs@.len() as int) =~= s@.drop_first());
        match read_digits(&cs, 1, cs.len(), 0x8000_0000_0000_0000) {
            Some(v) => {
                if v == 0x8000_0000_0000_0000 {
                    Some(i64::MIN)
                } else {
                    Some(-(v as i64))
                }
            },
            None => None,
        }
    } else {
        match parse_unsigned(s, 0x7fff_ffff_ffff_ffff) {
            Some(v) => Some(v as i64),
            None => None,
        }
    }
}


/// The decimal writing of a number is a run of digits worth that number.
pub proof fn lemma_decimal_digits(n: nat)
    ensures
        spec_decimal(n).len() > 0,
        forall|i: int| 0 <= i < spec_decimal(n).len() ==> is_digit(#[trigger] spec_decimal(n)[i]),
        digits_value(spec_decimal(n)) == n,
    decreases n,
{
    if n < 10 {
        assert(spec_decimal(n).drop_last() =~= Seq::<char>::empty());
        assert(digit_char(n as int) as int == 48 + n);
        assert(spec_decimal(n).last() == digit_char(n as int));
        assert(digits_value(Seq::<char>::empty()) == 0);
        assert(digits_value(spec_decimal(n)) == digits_value(spec_decimal(n).drop_last()) * 10 + ((
        spec_decimal(n).last() as int - 48) as nat));
    } else {
        lemma_decimal_digits(n / 10);
        let prev = spec_decimal(n / 10);
        assert(spec_decimal(n).drop_last() =~= prev);
        assert(digit_char((n % 10) as int) as int == 48 + n % 10);
        assert((n / 10) * 10 + n % 10 == n);
        let d = spec_decimal(n);
        assert(d.last() == digit_char((n % 10) as int));
        assert(digits_value(d) == digits_value(prev) * 10 + ((d.last() as int - 48) as nat));
        assert(digits_value(prev) * 10 == (n / 10) * 10);
    }
}

/// A number written in decimal reads back as itself.
pub proof fn lemma_decimal_reads_back(n: nat, max: nat)
    requires
        n <= max,
    ensures
        spec_parse_unsigned(spec_decimal(n), max) == Some(n),
{
    lemma_decimal_digits(n);
    let d = spec_decimal(n);
    assert(is_digit(d[0]));
}

} // verus!
