//! Text as sequences of characters: order, search, parts and numerals.

use vstd::prelude::*;
use vstd::std_specs::iter::IteratorSpec;
use vstd::string::{StrSliceExecFns, StringExecFns};

verus! {

/// Strict lexicographic order on character sequences, by code point.
pub open spec fn lex_lt(a: Seq<char>, b: Seq<char>) -> bool
    decreases a.len(),
{
    if b.len() == 0 {
        false
    } else if a.len() == 0 {
        true
    } else if a[0] != b[0] {
        (a[0] as u32) < (b[0] as u32)
    } else {
        lex_lt(a.drop_first(), b.drop_first())
    }
}

/// Characters of the same code point are the same.
proof fn lemma_code_point_injective(x: char, y: char)
    ensures
        x as u32 == y as u32 ==> x == y,
{
}

/// No text is below itself.
pub proof fn lemma_lex_lt_irreflexive(a: Seq<char>)
    ensures
        !lex_lt(a, a),
    decreases a.len(),
{
    if a.len() > 0 {
        lemma_lex_lt_irreflexive(a.drop_first());
    }
}

/// What is below a text is below what that text is below.
pub proof fn lemma_lex_lt_transitive(a: Seq<char>, b: Seq<char>, c: Seq<char>)
    requires
        lex_lt(a, b),
        lex_lt(b, c),
    ensures
        lex_lt(a, c),
    decreases a.len(),
{
    if a.len() > 0 && a[0] == b[0] && b[0] == c[0] {
        lemma_lex_lt_transitive(a.drop_first(), b.drop_first(), c.drop_first());
    }
}

/// Of two texts one is below the other, or they are the same.
pub proof fn lemma_lex_lt_total(a: Seq<char>, b: Seq<char>)
    ensures
        lex_lt(a, b) || a == b || lex_lt(b, a),
    decreases a.len(),
{
    if a.len() == 0 || b.len() == 0 {
        if a.len() == 0 && b.len() == 0 {
            assert(a =~= b);
        }
    } else if a[0] == b[0] {
        lemma_lex_lt_total(a.drop_first(), b.drop_first());
        if a.drop_first() == b.drop_first() {
            assert(a =~= seq![a[0]] + a.drop_first());
            assert(b =~= seq![b[0]] + b.drop_first());
        }
    } else {
        lemma_code_point_injective(a[0], b[0]);
    }
}

/// Whether `a` is below `b` in lexicographic order.
pub fn str_lt(a: &str, b: &str) -> (r: bool)
    ensures
        r == lex_lt(a@, b@),
{
    broadcast use vstd::string::group_string_axioms;
    let mut ia = a.chars();
    let mut ib = b.chars();
    loop
        invariant
            lex_lt(a@, b@) == lex_lt(ia.remaining(), ib.remaining()),
            ia.decrease() is Some,
        decreases ia.decrease()->0,
    {
        let ca = ia.next();
        let cb = ib.next();
        match (ca, cb) {
            (_, None) => { return false; },
            (None, Some(_)) => { return true; },
            (Some(x), Some(y)) => {
                if x != y {
                    return (x as u32) < (y as u32);
                }
            },
        }
    }
}

/// Whether `a` and `b` hold the same characters.
pub fn str_eq(a: &str, b: &str) -> (r: bool)
    ensures
        r == (a@ == b@),
{
    proof {
        lemma_lex_lt_total(a@, b@);
        lemma_lex_lt_irreflexive(a@);
    }
    !str_lt(a, b) && !str_lt(b, a)
}

/// The characters of `s`, in order.
pub fn chars_of(s: &str) -> (out: Vec<char>)
    ensures
        out@ == s@,
{
    let mut out: Vec<char> = Vec::new();
    for c in it: s.chars()
        invariant
            out@ == it.seq().take(it.index() as int),
            it.seq() == s@,
    {
        out.push(c);
    }
    out
}

/// Whether `s` begins with `prefix`.
pub fn starts_with(s: &Vec<char>, prefix: &Vec<char>) -> (r: bool)
    ensures
        r == prefix@.is_prefix_of(s@),
{
    if prefix.len() > s.len() {
        return false;
    }
    let mut i: usize = 0;
    while i < prefix.len()
        invariant
            prefix.len() <= s.len(),
            0 <= i <= prefix.len(),
            forall|j: int| 0 <= j < i ==> prefix@[j] == s@[j],
        decreases prefix.len() - i,
    {
        if prefix[i] != s[i] {
            assert(s@.subrange(0, prefix@.len() as int)[i as int] == s@[i as int]);
            return false;
        }
        i += 1;
    }
    assert(prefix@ =~= s@.subrange(0, prefix@.len() as int));
    true
}

/// Whether `s` ends with `suffix`.
pub fn ends_with(s: &Vec<char>, suffix: &Vec<char>) -> (r: bool)
    ensures
        r == suffix@.is_suffix_of(s@),
{
    if suffix.len() > s.len() {
        return false;
    }
    let shift: usize = s.len() - suffix.len();
    let mut i: usize = 0;
    while i < suffix.len()
        invariant
            suffix.len() <= s.len(),
            shift == s.len() - suffix.len(),
            0 <= i <= suffix.len(),
            forall|j: int| 0 <= j < i ==> suffix@[j] == s@[shift + j],
        decreases suffix.len() - i,
    {
        if suffix[i] != s[shift + i] {
            assert(s@.subrange(shift as int, s@.len() as int)[i as int] == s@[shift + i]);
            return false;
        }
        i += 1;
    }
    assert(suffix@ =~= s@.subrange(shift as int, s@.len() as int));
    true
}

/// The decimal digit that stands for `d`.
pub open spec fn digit(d: nat) -> char {
    if d == 0 {
        '0'
    } else if d == 1 {
        '1'
    } else if d == 2 {
        '2'
    } else if d == 3 {
        '3'
    } else if d == 4 {
        '4'
    } else if d == 5 {
        '5'
    } else if d == 6 {
        '6'
    } else if d == 7 {
        '7'
    } else if d == 8 {
        '8'
    } else {
        '9'
    }
}

/// The decimal numeral of `n`, without leading zeros.
pub open spec fn decimal(n: nat) -> Seq<char>
    decreases n,
{
    if n < 10 {
        seq![digit(n)]
    } else {
        decimal(n / 10).push(digit(n % 10))
    }
}

/// The decimal digit that stands for `d`, as a string.
fn digit_text(d: usize) -> (r: &'static str)
    requires
        d < 10,
    ensures
        r@ == seq![digit(d as nat)],
{
    proof {
        reveal_strlit("0");
        reveal_strlit("1");
        reveal_strlit("2");
        reveal_strlit("3");
        reveal_strlit("4");
        reveal_strlit("5");
        reveal_strlit("6");
        reveal_strlit("7");
        reveal_strlit("8");
        reveal_strlit("9");
    }
    let r = if d == 0 {
        "0"
    } else if d == 1 {
        "1"
    } else if d == 2 {
        "2"
    } else if d == 3 {
        "3"
    } else if d == 4 {
        "4"
    } else if d == 5 {
        "5"
    } else if d == 6 {
        "6"
    } else if d == 7 {
        "7"
    } else if d == 8 {
        "8"
    } else {
        "9"
    };
    assert(r@ =~= seq![digit(d as nat)]);
    r
}

/// The decimal numeral of `n` as a string.
pub fn decimal_string(n: usize) -> (r: String)
    ensures
        r@ == decimal(n as nat),
    decreases n,
{
    if n < 10 {
        digit_text(n).to_owned()
    } else {
        let mut r = decimal_string(n / 10);
        r.append(digit_text(n % 10));
        assert(r@ =~= decimal(n as nat));
        r
    }
}

/// The dotted path of the child `name` under `prefix`: the name alone
/// under the empty prefix.
pub open spec fn child_path(prefix: Seq<char>, name: Seq<char>) -> Seq<char> {
    if prefix.len() == 0 {
        name
    } else {
        prefix + seq!['.'] + name
    }
}

/// The dotted path of the child `name` under `prefix`.
pub fn child_path_string(prefix: &str, name: &str) -> (r: String)
    ensures
        r@ == child_path(prefix@, name@),
{
    if prefix.unicode_len() == 0 {
        name.to_owned()
    } else {
        let mut r = prefix.to_owned();
        proof {
            reveal_strlit(".");
        }
        r.append(".");
        r.append(name);
        assert(r@ =~= child_path(prefix@, name@));
        r
    }
}

/// Whether `c` occurs in `s`.
pub open spec fn has_char(s: Seq<char>, c: char) -> bool {
    exists|i: int| 0 <= i < s.len() && s[i] == c
}

/// The position of the first `c` in `s`; the length of `s` where there is
/// none.
pub open spec fn first_index(s: Seq<char>, c: char) -> int
    decreases s.len(),
{
    if s.len() == 0 {
        0
    } else if s[0] == c {
        0
    } else {
        1 + first_index(s.drop_first(), c)
    }
}

/// The position of the last `c` in `s`; -1 where there is none.
pub open spec fn last_index(s: Seq<char>, c: char) -> int
    decreases s.len(),
{
    if s.len() == 0 {
        -1
    } else if s.last() == c {
        s.len() - 1
    } else {
        last_index(s.drop_last(), c)
    }
}

/// What stands before the first `c` in `s`: all of `s` where there is none.
pub open spec fn before_first(s: Seq<char>, c: char) -> Seq<char> {
    s.take(first_index(s, c))
}

/// What stands after the first `c` in `s`: nothing where there is none.
pub open spec fn after_first(s: Seq<char>, c: char) -> Seq<char> {
    if first_index(s, c) < s.len() {
        s.skip(first_index(s, c) + 1)
    } else {
        Seq::empty()
    }
}

/// What stands before the last `c` in `s`: nothing where there is none.
pub open spec fn before_last(s: Seq<char>, c: char) -> Seq<char> {
    if last_index(s, c) >= 0 {
        s.take(last_index(s, c))
    } else {
        Seq::empty()
    }
}

/// What stands after the last `c` in `s`: all of `s` where there is none.
pub open spec fn after_last(s: Seq<char>, c: char) -> Seq<char> {
    s.skip(last_index(s, c) + 1)
}

/// A position with no `c` before it that holds `c` or is the end of `s`
/// is the first index of `c`.
pub proof fn lemma_first_index(s: Seq<char>, c: char, i: int)
    requires
        0 <= i <= s.len(),
        forall|j: int| 0 <= j < i ==> s[j] != c,
        i < s.len() ==> s[i] == c,
    ensures
        first_index(s, c) == i,
    decreases s.len(),
{
    if s.len() > 0 && i > 0 {
        let rest = s.drop_first();
        assert(s[0] != c);
        assert forall|j: int| 0 <= j < i - 1 implies rest[j] != c by {
            assert(rest[j] == s[j + 1]);
        }
        if i < s.len() {
            assert(rest[i - 1] == s[i]);
        }
        lemma_first_index(rest, c, i - 1);
    }
}

/// The first index of `c` is within `s`, holds `c` unless it is the end,
/// and no `c` stands before it.
pub proof fn lemma_first_index_found(s: Seq<char>, c: char)
    ensures
        0 <= first_index(s, c) <= s.len(),
        first_index(s, c) < s.len() ==> s[first_index(s, c)] == c,
        forall|j: int| 0 <= j < first_index(s, c) ==> s[j] != c,
        has_char(s, c) <==> first_index(s, c) < s.len(),
    decreases s.len(),
{
    if s.len() > 0 && s[0] != c {
        let rest = s.drop_first();
        lemma_first_index_found(rest, c);
        assert forall|j: int| 0 <= j < first_index(s, c) implies s[j] != c by {
            if j > 0 {
                assert(rest[j - 1] == s[j]);
            }
        }
        if first_index(s, c) < s.len() {
            assert(s[first_index(s, c)] == rest[first_index(rest, c)]);
        }
    }
    if has_char(s, c) {
        let i = choose|i: int| 0 <= i < s.len() && s[i] == c;
        assert(first_index(s, c) <= i);
    }
}

/// A position that holds `c` with no `c` after it, or -1 where `s` holds
/// no `c`, is the last index of `c`.
pub proof fn lemma_last_index(s: Seq<char>, c: char, i: int)
    requires
        -1 <= i < s.len(),
        forall|j: int| i < j < s.len() ==> s[j] != c,
        i >= 0 ==> s[i] == c,
    ensures
        last_index(s, c) == i,
    decreases s.len(),
{
    if s.len() > 0 && i < s.len() - 1 {
        let init = s.drop_last();
        assert(s[s.len() - 1] != c);
        assert forall|j: int| i < j < init.len() implies init[j] != c by {
            assert(init[j] == s[j]);
        }
        if i >= 0 {
            assert(init[i] == s[i]);
        }
        lemma_last_index(init, c, i);
    }
}

/// The last index of `c` is within `s` or -1, holds `c` unless it is -1,
/// and no `c` stands after it.
pub proof fn lemma_last_index_found(s: Seq<char>, c: char)
    ensures
        -1 <= last_index(s, c) < s.len(),
        last_index(s, c) >= 0 ==> s[last_index(s, c)] == c,
        forall|j: int| last_index(s, c) < j < s.len() ==> s[j] != c,
        has_char(s, c) <==> last_index(s, c) >= 0,
    decreases s.len(),
{
    if s.len() > 0 && s.last() != c {
        let init = s.drop_last();
        lemma_last_index_found(init, c);
        assert forall|j: int| last_index(s, c) < j < s.len() implies s[j] != c by {
            if j < s.len() - 1 {
                assert(init[j] == s[j]);
            }
        }
        if last_index(s, c) >= 0 {
            assert(s[last_index(s, c)] == init[last_index(init, c)]);
        }
    }
    if has_char(s, c) {
        let i = choose|i: int| 0 <= i < s.len() && s[i] == c;
        assert(last_index(s, c) >= i);
    }
}

/// The position of the first `c` among `s[from..to]`, or `to`.
pub fn find_first(s: &Vec<char>, from: usize, to: usize, c: char) -> (r: usize)
    requires
        from <= to <= s.len(),
    ensures
        r == from + first_index(s@.subrange(from as int, to as int), c),
        from <= r <= to,
{
    let ghost part = s@.subrange(from as int, to as int);
    let mut i: usize = from;
    while i < to && s[i] != c
        invariant
            from <= i <= to <= s.len(),
            part == s@.subrange(from as int, to as int),
            forall|j: int| 0 <= j < i - from ==> part[j] != c,
        decreases to - i,
    {
        assert(part[i - from] == s@[i as int]);
        i += 1;
    }
    proof {
        if i < to {
            assert(part[i - from] == s@[i as int]);
        }
        lemma_first_index(part, c, i - from);
    }
    i
}

/// The position after the last `c` among `s[from..to]`, or `from`.
pub fn find_last(s: &Vec<char>, from: usize, to: usize, c: char) -> (r: usize)
    requires
        from <= to <= s.len(),
    ensures
        r == from + last_index(s@.subrange(from as int, to as int), c) + 1,
        from <= r <= to,
{
    let ghost part = s@.subrange(from as int, to as int);
    let mut i: usize = to;
    while i > from && s[i - 1] != c
        invariant
            from <= i <= to <= s.len(),
            part == s@.subrange(from as int, to as int),
            forall|j: int| i - from <= j < part.len() ==> part[j] != c,
        decreases i - from,
    {
        assert(part[i - 1 - from] == s@[i - 1]);
        i -= 1;
    }
    proof {
        if i > from {
            assert(part[i - 1 - from] == s@[i - 1]);
        }
        lemma_last_index(part, c, i - from - 1);
    }
    i
}

/// Whether `part` occurs in `s` as a run of consecutive characters.
pub open spec fn has_part(s: Seq<char>, part: Seq<char>) -> bool {
    exists|i: int| 0 <= i <= s.len() - part.len() && #[trigger] s.subrange(i, i + part.len()) == part
}

/// Whether `part` stands in `s` at position `at`.
fn part_at(s: &Vec<char>, at: usize, part: &Vec<char>) -> (r: bool)
    requires
        at + part.len() <= s.len(),
    ensures
        r == (s@.subrange(at as int, at + part.len()) == part@),
{
    let mut i: usize = 0;
    while i < part.len()
        invariant
            at + part.len() <= s.len(),
            0 <= i <= part.len(),
            forall|j: int| 0 <= j < i ==> part@[j] == s@[at + j],
        decreases part.len() - i,
    {
        if part[i] != s[at + i] {
            assert(s@.subrange(at as int, at + part.len())[i as int] == s@[at + i]);
            return false;
        }
        i += 1;
    }
    assert(s@.subrange(at as int, at + part.len()) =~= part@);
    true
}

/// Whether `part` occurs in `s`.
pub fn contains(s: &Vec<char>, part: &Vec<char>) -> (r: bool)
    ensures
        r == has_part(s@, part@),
{
    if part.len() > s.len() {
        return false;
    }
    let last: usize = s.len() - part.len();
    let mut at: usize = 0;
    loop
        invariant
            part.len() <= s.len(),
            last == s.len() - part.len(),
            0 <= at <= last,
            forall|i: int| 0 <= i < at ==> #[trigger] s@.subrange(i, i + part.len()) != part@,
        decreases last - at,
    {
        if part_at(s, at, part) {
            return true;
        }
        if at == last {
            return false;
        }
        at += 1;
    }
}

/// The parts of `s` that `c` separates, in order: one more than `s` holds
/// `c`.
pub open spec fn split(s: Seq<char>, c: char) -> Seq<Seq<char>>
    decreases s.len(),
{
    if first_index(s, c) < s.len() && after_first(s, c).len() < s.len() {
        seq![before_first(s, c)] + split(after_first(s, c), c)
    } else {
        seq![s]
    }
}

/// The views of a list of strings.
pub open spec fn views(list: Seq<String>) -> Seq<Seq<char>> {
    list.map_values(|s: String| s@)
}

/// The parts of `s` that `c` separates, in order.
pub fn split_text(s: &str, c: char) -> (parts: Vec<String>)
    ensures
        views(parts@) == split(s@, c),
{
    let chars = chars_of(s);
    let n = chars.len();
    let mut parts: Vec<String> = Vec::new();
    let mut from: usize = 0;
    assert(s@.skip(0) =~= s@);
    assert(views(parts@) + split(s@, c) =~= split(s@, c));
    loop
        invariant
            chars@ == s@,
            n == chars.len(),
            0 <= from <= n,
            split(s@, c) == views(parts@) + split(s@.skip(from as int), c),
        decreases n - from,
    {
        let ghost rest = s@.skip(from as int);
        assert(rest =~= chars@.subrange(from as int, n as int));
        let at = find_first(&chars, from, n, c);
        proof {
            lemma_first_index_found(rest, c);
        }
        let part = s.substring_char(from, at).to_owned();
        assert(part@ =~= before_first(rest, c));
        let ghost before = views(parts@);
        parts.push(part);
        assert(views(parts@) =~= before + seq![before_first(rest, c)]);
        if at >= n {
            assert(split(rest, c) =~= seq![rest]);
            assert(before_first(rest, c) =~= rest);
            assert(split(s@, c) =~= views(parts@));
            return parts;
        }
        assert(after_first(rest, c) =~= s@.skip(at + 1));
        assert(split(rest, c) =~= seq![before_first(rest, c)] + split(s@.skip(at + 1), c));
        from = at + 1;
    }
}

/// `s` with every `old` replaced by `new`.
pub open spec fn replaced(s: Seq<char>, old: char, new: char) -> Seq<char> {
    s.map_values(|x: char| if x == old { new } else { x })
}

/// The characters `from..to` of `s` with every `/` replaced by `.`.
pub fn dotted(s: &str, from: usize, to: usize) -> (r: String)
    requires
        from <= to <= s@.len(),
    ensures
        r@ == replaced(s@.subrange(from as int, to as int), '/', '.'),
{
    let chars = chars_of(s);
    let ghost whole = s@.subrange(from as int, to as int);
    let mut r = String::new();
    let mut done: usize = from;
    assert(r@ =~= replaced(s@.subrange(from as int, done as int), '/', '.'));
    loop
        invariant
            chars@ == s@,
            from <= done <= to <= s@.len(),
            whole == s@.subrange(from as int, to as int),
            r@ == replaced(s@.subrange(from as int, done as int), '/', '.'),
        decreases to - done,
    {
        let at = find_first(&chars, done, to, '/');
        proof {
            lemma_first_index_found(chars@.subrange(done as int, to as int), '/');
        }
        let ghost before = r@;
        r.append(s.substring_char(done, at));
        assert(r@ =~= replaced(s@.subrange(from as int, at as int), '/', '.')) by {
            let piece = s@.subrange(done as int, at as int);
            assert forall|j: int| 0 <= j < piece.len() implies piece[j] != '/' by {
                assert(piece[j] == chars@.subrange(done as int, to as int)[j]);
            }
        }
        if at >= to {
            return r;
        }
        assert(chars@.subrange(done as int, to as int)[at - done] == s@[at as int]);
        assert(s@[at as int] == '/');
        let ghost upto = r@;
        proof {
            reveal_strlit(".");
        }
        r.append(".");
        assert(r@ =~= upto.push('.'));
        assert(r@ =~= replaced(s@.subrange(from as int, at + 1), '/', '.'));
        done = at + 1;
    }
}

/// The path of `name` inside the directory `dir`.
pub open spec fn path_in(dir: Seq<char>, name: Seq<char>) -> Seq<char> {
    dir + seq!['/'] + name
}

/// Joins `dir` and `name` into the path of `name` inside `dir`.
pub fn path_in_string(dir: &str, name: &str) -> (r: String)
    ensures
        r@ == path_in(dir@, name@),
{
    let mut r = dir.to_owned();
    proof {
        reveal_strlit("/");
    }
    r.append("/");
    r.append(name);
    assert(r@ =~= path_in(dir@, name@));
    r
}

/// `s` without the ending `suffix`, where it has that ending.
pub open spec fn without_suffix(s: Seq<char>, suffix: Seq<char>) -> Seq<char> {
    if suffix.is_suffix_of(s) {
        s.take(s.len() - suffix.len())
    } else {
        s
    }
}

/// `s` without the beginning `prefix`, where it has that beginning.
pub open spec fn without_prefix(s: Seq<char>, prefix: Seq<char>) -> Seq<char> {
    if prefix.is_prefix_of(s) {
        s.skip(prefix.len() as int)
    } else {
        s
    }
}

/// The decimal numeral of `n`, with `-` before that of a negative number.
pub open spec fn signed_decimal(n: int) -> Seq<char> {
    if n < 0 {
        seq!['-'] + decimal((-n) as nat)
    } else {
        decimal(n as nat)
    }
}

/// The decimal numeral of the signed number `n` as a string.
pub fn signed_decimal_string(n: i32) -> (r: String)
    ensures
        r@ == signed_decimal(n as int),
{
    if n >= 0 {
        decimal_string(n as usize)
    } else {
        let magnitude: i64 = -(n as i64);
        let mut r = "-".to_owned();
        proof {
            reveal_strlit("-");
        }
        let digits = decimal_string(magnitude as usize);
        r.append(digits.as_str());
        assert(r@ =~= signed_decimal(n as int));
        r
    }
}

} // verus!
