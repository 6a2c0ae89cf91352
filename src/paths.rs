use vstd::prelude::*;
use vstd::string::{StrSliceExecFns, StringExecFns};

verus! {

pub open spec fn digit_chars() -> Seq<char> {
    seq!['0', '1', '2', '3', '4', '5', '6', '7', '8', '9']
}

pub open spec fn is_digit(c: char) -> bool {
    '0' <= c && c <= '9'
}

pub open spec fn digit_value(c: char) -> int {
    c as int - '0' as int
}

/// The decimal digits of `n`, most significant first, with no leading zero.
pub open spec fn decimal(n: nat) -> Seq<char>
    decreases n,
{
    if n < 10 {
        seq![digit_chars()[n as int]]
    } else {
        decimal(n / 10) + seq![digit_chars()[(n % 10) as int]]
    }
}

/// The number that a sequence of decimal digits denotes.
pub open spec fn digits_value(s: Seq<char>) -> int
    decreases s.len(),
{
    if s.len() == 0 {
        0
    } else {
        digits_value(s.drop_last()) * 10 + digit_value(s.last())
    }
}

/// `.log`
pub open spec fn log_suffix() -> Seq<char> {
    seq!['.', 'l', 'o', 'g']
}

/// The name of the segment file of a generation.
pub open spec fn log_file_name(gen: u64) -> Seq<char> {
    decimal(gen as nat) + log_suffix()
}

/// The path of a file named `name` in directory `dir`.
pub open spec fn join_path(dir: Seq<char>, name: Seq<char>) -> Seq<char> {
    if dir.len() == 0 || dir.last() == '/' {
        dir + name
    } else {
        dir + seq!['/'] + name
    }
}

/// An unsigned integer as `str::parse::<u64>` reads it: an optional `+` and
/// then at least one decimal digit, with a value that fits in 64 bits.
pub open spec fn parse_u64(s: Seq<char>) -> Option<u64> {
    let d = unsigned_part(s);
    if d.len() > 0 && all_digits(d) && digits_value(d) <= u64::MAX {
        Some(digits_value(d) as u64)
    } else {
        None
    }
}

/// The digits of an unsigned number, past its optional `+`.
pub open spec fn unsigned_part(s: Seq<char>) -> Seq<char> {
    if s.len() > 0 && s[0] == '+' {
        s.drop_first()
    } else {
        s
    }
}

pub open spec fn all_digits(d: Seq<char>) -> bool {
    forall|i: int| 0 <= i < d.len() ==> is_digit(#[trigger] d[i])
}

/// The generation that a file name denotes: the name is a stem that reads as an
/// unsigned integer, followed by `.log`.
pub open spec fn log_gen_of(name: Seq<char>) -> Option<u64> {
    if name.len() >= 4 && name.subrange(name.len() - 4, name.len() as int) == log_suffix() {
        parse_u64(name.subrange(0, name.len() - 4))
    } else {
        None
    }
}

pub open spec fn strictly_ascending(s: Seq<u64>) -> bool {
    forall|i: int, j: int| 0 <= i < j < s.len() ==> s[i] < s[j]
}

proof fn lemma_digits_value_nonneg(s: Seq<char>)
    requires
        forall|i: int| 0 <= i < s.len() ==> is_digit(#[trigger] s[i]),
    ensures
        digits_value(s) >= 0,
    decreases s.len(),
{
    if s.len() > 0 {
        lemma_digits_value_nonneg(s.drop_last());
    }
}

proof fn lemma_digits_value_grows(s: Seq<char>, i: int)
    requires
        0 <= i <= s.len(),
        forall|j: int| 0 <= j < s.len() ==> is_digit(#[trigger] s[j]),
    ensures
        digits_value(s.subrange(0, i)) <= digits_value(s),
    decreases s.len() - i,
{
    if i < s.len() {
        lemma_digits_value_grows(s, i + 1);
        let p = s.subrange(0, i + 1);
        assert(p.drop_last() =~= s.subrange(0, i));
        lemma_digits_value_nonneg(s.subrange(0, i));
    } else {
        assert(s.subrange(0, i) =~= s);
    }
}

fn digit_str(d: u64) -> (r: &'static str)
    requires
        d < 10,
    ensures
        r@ == seq![digit_chars()[d as int]],
{
    proof {
        reveal_strlit("0123456789");
    }
    let all = "0123456789";
    let r = all.substring_char(d as usize, (d + 1) as usize);
    assert(r@ =~= seq![digit_chars()[d as int]]);
    r
}

fn push_decimal(s: &mut String, n: u64)
    ensures
        final(s)@ == old(s)@ + decimal(n as nat),
    decreases n,
{
    if n >= 10 {
        push_decimal(s, n / 10);
        s.append(digit_str(n % 10));
        assert(final(s)@ =~= old(s)@ + decimal(n as nat));
    } else {
        s.append(digit_str(n));
    }
}

/// The path of the segment file of generation `gen` in directory `dir`.
pub fn log_path(dir: &str, gen: u64) -> (r: String)
    ensures
        r@ == join_path(dir@, log_file_name(gen)),
{
    let mut s = dir.to_owned();
    let n = dir.unicode_len();
    if n > 0 && dir.get_char(n - 1) != '/' {
        proof {
            reveal_strlit("/");
        }
        s.append("/");
    }
    push_decimal(&mut s, gen);
    proof {
        reveal_strlit(".log");
    }
    s.append(".log");
    assert(s@ =~= join_path(dir@, log_file_name(gen)));
    s
}

/// Reads the generation out of a file name, if the name is that of a segment.
pub fn parse_log_name(name: &str) -> (r: Option<u64>)
    ensures
        r == log_gen_of(name@),
{
    let len = name.unicode_len();
    if len < 4 || name.get_char(len - 4) != '.' || name.get_char(len - 3) != 'l' || name.get_char(
        len - 2,
    ) != 'o' || name.get_char(len - 1) != 'g' {
        proof {
            if len >= 4 && name@.subrange(len - 4, len as int) == log_suffix() {
                assert(name@.subrange(len - 4, len as int)[0] == name@[len - 4]);
                assert(name@.subrange(len - 4, len as int)[1] == name@[len - 3]);
                assert(name@.subrange(len - 4, len as int)[2] == name@[len - 2]);
                assert(name@.subrange(len - 4, len as int)[3] == name@[len - 1]);
            }
        }
        return None;
    }
    assert(name@.subrange(len - 4, len as int) =~= log_suffix());
    let stem_end = len - 4;
    let ghost stem = name@.subrange(0, stem_end as int);
    let mut start: usize = 0;
    assert(stem_end > 0 ==> stem[0] == name@[0]);
    if stem_end > 0 && name.get_char(0) == '+' {
        start = 1;
    }
    let ghost d = stem.subrange(start as int, stem.len() as int);
    assert(start == 1 ==> d =~= stem.drop_first());
    assert(start == 0 ==> d =~= stem);
    assert(d == unsigned_part(stem));
    assert(name@.subrange(0, name@.len() - 4) == stem);
    assert(log_gen_of(name@) == parse_u64(stem));
    if start == stem_end {
        return None;
    }
    let mut i: usize = start;
    while i < stem_end
        invariant
            start <= i <= stem_end,
            stem_end == len - 4,
            len == name@.len(),
            stem == name@.subrange(0, stem_end as int),
            d == stem.subrange(start as int, stem.len() as int),
            log_gen_of(name@) == parse_u64(stem),
            d == unsigned_part(stem),
            forall|j: int| 0 <= j < i - start ==> is_digit(#[trigger] d[j]),
        decreases stem_end - i,
    {
        let c = name.get_char(i);
        assert(d[i - start] == c);
        if !('0' <= c && c <= '9') {
            assert(!is_digit(d[i - start]));
            assert(!all_digits(d));
            return None;
        }
        i += 1;
    }
    assert(all_digits(d));
    let mut acc: u64 = 0;
    let mut i: usize = start;
    while i < stem_end
        invariant
            start <= i <= stem_end,
            stem_end == len - 4,
            len == name@.len(),
            stem == name@.subrange(0, stem_end as int),
            d == stem.subrange(start as int, stem.len() as int),
            log_gen_of(name@) == parse_u64(stem),
            d == unsigned_part(stem),
            all_digits(d),
            acc as int == digits_value(d.subrange(0, i - start)),
        decreases stem_end - i,
    {
        let c = name.get_char(i);
        assert(d[i - start] == c);
        assert(is_digit(d[i - start]));
        assert(d.len() == stem_end - start);
        let v: u64 = (c as u32 - '0' as u32) as u64;
        let ghost p = d.subrange(0, i - start + 1);
        assert(p.drop_last() =~= d.subrange(0, i - start));
        assert(p.last() == c);
        assert(digits_value(p) == acc * 10 + v);
        if acc > (u64::MAX - v) / 10 {
            proof {
                lemma_digits_value_grows(d, i - start + 1);
                assert(acc * 10 + v > u64::MAX) by (nonlinear_arith)
                    requires
                        acc > (u64::MAX - v) / 10,
                        v <= 9,
                ;
            }
            return None;
        }
        assert(acc * 10 + v <= u64::MAX) by (nonlinear_arith)
            requires
                acc <= (u64::MAX - v) / 10,
                v <= 9,
        ;
        acc = acc * 10 + v;
        i += 1;
    }
    assert(d.subrange(0, d.len() as int) =~= d);
    Some(acc)
}

/// The generations of the segment files among the names of a directory's
/// files, each once, in ascending order.
pub fn sorted_log_gens(names: &Vec<String>) -> (r: Vec<u64>)
    ensures
        strictly_ascending(r@),
        forall|g: u64|
            r@.contains(g) <==> exists|i: int|
                0 <= i < names.len() && log_gen_of(#[trigger] names[i]@) == Some(g),
{
    let mut gens: Vec<u64> = Vec::new();
    let mut i: usize = 0;
    while i < names.len()
        invariant
            i <= names.len(),
            strictly_ascending(gens@),
            forall|g: u64|
                gens@.contains(g) <==> exists|k: int|
                    0 <= k < i && log_gen_of(#[trigger] names[k]@) == Some(g),
        decreases names.len() - i,
    {
        let parsed = parse_log_name(names[i].as_str());
        assert(parsed == log_gen_of(names[i as int]@));
        let ghost old_gens = gens@;
        assert(forall|x: u64|
            old_gens.contains(x) <==> exists|k: int|
                0 <= k < i && log_gen_of(#[trigger] names[k]@) == Some(x));
        if let Some(g) = parsed {
            let mut j: usize = 0;
            while j < gens.len() && gens[j] < g
                invariant
                    j <= gens.len(),
                    gens@ == old_gens,
                    forall|k: int| 0 <= k < j ==> gens@[k] < g,
                decreases gens.len() - j,
            {
                j += 1;
            }
            if j == gens.len() || gens[j] != g {
                gens.insert(j, g);
                assert forall|a: int, b: int| 0 <= a < b < gens@.len() implies gens@[a] < gens@[b] by {
                    if a < j && b > j {
                        assert(gens@[b] == old_gens[b - 1]);
                    }
                }
                assert forall|x: u64| gens@.contains(x) <==> (old_gens.contains(x) || x == g) by {
                    if gens@.contains(x) {
                        let k = choose|k: int| 0 <= k < gens@.len() && gens@[k] == x;
                        if k < j {
                            assert(old_gens[k] == x);
                        } else if k > j {
                            assert(old_gens[k - 1] == x);
                        }
                    }
                    if old_gens.contains(x) {
                        let k = choose|k: int| 0 <= k < old_gens.len() && old_gens[k] == x;
                        if k < j {
                            assert(gens@[k] == x);
                        } else {
                            assert(gens@[k + 1] == x);
                        }
                    }
                    if x == g {
                        assert(gens@[j as int] == x);
                    }
                }
            } else {
                assert(gens@ == old_gens);
                assert(old_gens[j as int] == g);
                assert(old_gens.contains(g));
                assert forall|x: u64| gens@.contains(x) <==> (old_gens.contains(x) || x == g) by {}
            }
        } else {
            assert(gens@ == old_gens);
        }
        assert forall|x: u64| gens@.contains(x) <==> (old_gens.contains(x) || parsed == Some(x)) by {}
        assert forall|g: u64|
            gens@.contains(g) <==> exists|k: int|
                0 <= k < i + 1 && log_gen_of(#[trigger] names[k]@) == Some(g) by {
            if gens@.contains(g) {
                if old_gens.contains(g) {
                    let k = choose|k: int| 0 <= k < i && log_gen_of(#[trigger] names[k]@) == Some(g);
                    assert(0 <= k < i + 1 && log_gen_of(names[k]@) == Some(g));
                } else {
                    assert(log_gen_of(names[i as int]@) == Some(g));
                }
            }
            if exists|k: int| 0 <= k < i + 1 && log_gen_of(#[trigger] names[k]@) == Some(g) {
                let k = choose|k: int| 0 <= k < i + 1 && log_gen_of(#[trigger] names[k]@) == Some(g);
                if k < i {
                    assert(old_gens.contains(g));
                }
            }
        }
        i += 1;
    }
    gens
}

} // verus!
