use vstd::prelude::*;

verus! {

/// `String::push` appends one character to the end of a string.
pub assume_specification[ String::push ](s: &mut String, c: char)
    ensures
        final(s)@ == old(s)@.push(c),
;

/// The characters of a string.
pub fn chars_of(s: &str) -> (r: Vec<char>)
    ensures
        r@ == s@,
{
    let mut out: Vec<char> = Vec::new();
    for c in it: s.chars()
        invariant
            out@ == it.seq().take(it.index()),
            it.seq() == s@,
    {
        out.push(c);
        proof {
            assert(it.seq().take(it.index() + 1) =~= it.seq().take(it.index()).push(c));
        }
    }
    proof {
        assert(s@.take(s@.len() as int) =~= s@);
    }
    out
}

/// The string of some characters.
pub fn string_of(chars: &Vec<char>) -> (r: String)
    ensures
        r@ == chars@,
{
    let mut out = String::new();
    let mut i: usize = 0;
    while i < chars.len()
        invariant
            i <= chars.len(),
            out@ == chars@.take(i as int),
        decreases chars.len() - i,
    {
        out.push(chars[i]);
        proof {
            assert(chars@.take(i + 1) =~= chars@.take(i as int).push(chars@[i as int]));
        }
        i = i + 1;
    }
    proof {
        assert(chars@.take(i as int) =~= chars@);
    }
    out
}

/// The characters from position `from` to before position `to`.
pub fn part(chars: &Vec<char>, from: usize, to: usize) -> (r: Vec<char>)
    requires
        from <= to <= chars@.len(),
    ensures
        r@ == chars@.subrange(from as int, to as int),
{
    let mut out: Vec<char> = Vec::new();
    let mut i: usize = from;
    while i < to
        invariant
            from <= i <= to <= chars@.len(),
            out@ == chars@.subrange(from as int, i as int),
        decreases to - i,
    {
        out.push(chars[i]);
        proof {
            assert(chars@.subrange(from as int, i + 1) =~= chars@.subrange(
                from as int,
                i as int,
            ).push(chars@[i as int]));
        }
        i = i + 1;
    }
    out
}

/// The characters that have the Unicode property `White_Space`.
pub open spec fn spec_is_space(c: char) -> bool {
    let n = c as int;
    ||| 0x09 <= n <= 0x0d
    ||| n == 0x20
    ||| n == 0x85
    ||| n == 0xa0
    ||| n == 0x1680
    ||| 0x2000 <= n <= 0x200a
    ||| n == 0x2028
    ||| n == 0x2029
    ||| n == 0x202f
    ||| n == 0x205f
    ||| n == 0x3000
}

/// Tells whether a character has the Unicode property `White_Space`.
#[verifier::when_used_as_spec(spec_is_space)]
pub fn is_space(c: char) -> (r: bool)
    ensures
        r == is_space(c),
{
    let n = c as u32;
    (0x09 <= n && n <= 0x0d) || n == 0x20 || n == 0x85 || n == 0xa0 || n == 0x1680 || (0x2000 <= n
        && n <= 0x200a) || n == 0x2028 || n == 0x2029 || n == 0x202f || n == 0x205f || n == 0x3000
}

/// A text without the white space at its start.
pub open spec fn trimmed_start(s: Seq<char>) -> Seq<char>
    decreases s.len(),
{
    if s.len() > 0 && is_space(s[0]) {
        trimmed_start(s.drop_first())
    } else {
        s
    }
}

/// A text without the white space at its end.
pub open spec fn trimmed_end(s: Seq<char>) -> Seq<char>
    decreases s.len(),
{
    if s.len() > 0 && is_space(s.last()) {
        trimmed_end(s.drop_last())
    } else {
        s
    }
}

/// A text without the white space around it.
pub open spec fn trimmed(s: Seq<char>) -> Seq<char> {
    trimmed_end(trimmed_start(s))
}

/// Removes the white space around a text.
pub fn trim(chars: &Vec<char>) -> (r: Vec<char>)
    ensures
        r@ == trimmed(chars@),
{
    let n = chars.len();
    let mut from: usize = 0;
    proof {
        assert(chars@.subrange(0, n as int) =~= chars@);
    }
    while from < n && is_space(chars[from])
        invariant
            from <= n == chars@.len(),
            trimmed_start(chars@) == trimmed_start(chars@.subrange(from as int, n as int)),
        decreases n - from,
    {
        proof {
            assert(chars@.subrange(from as int, n as int).drop_first() =~= chars@.subrange(
                from + 1,
                n as int,
            ));
        }
        from = from + 1;
    }
    let ghost rest = chars@.subrange(from as int, n as int);
    proof {
        assert(trimmed_start(chars@) == rest);
    }
    let mut to: usize = n;
    while to > from && is_space(chars[to - 1])
        invariant
            from <= to <= n == chars@.len(),
            trimmed_end(rest) == trimmed_end(chars@.subrange(from as int, to as int)),
        decreases to,
    {
        proof {
            assert(chars@.subrange(from as int, to as int).drop_last() =~= chars@.subrange(
                from as int,
                to - 1,
            ));
        }
        to = to - 1;
    }
    part(chars, from, to)
}

/// Tells whether `needle` stands in `chars` at position `at`.
fn stands_at(chars: &Vec<char>, at: usize, needle: &Vec<char>) -> (r: bool)
    requires
        at + needle@.len() <= chars@.len(),
    ensures
        r == (chars@.subrange(at as int, at + needle@.len()) == needle@),
{
    let n = chars.len();
    let mut i: usize = 0;
    while i < needle.len()
        invariant
            at + needle@.len() <= n == chars@.len(),
            i <= needle@.len(),
            forall|j: int| 0 <= j < i ==> chars@[at + j] == needle@[j],
        decreases needle.len() - i,
    {
        if chars[at + i] != needle[i] {
            proof {
                assert(chars@.subrange(at as int, at + needle@.len())[i as int]
                    != needle@[i as int]);
            }
            return false;
        }
        i = i + 1;
    }
    proof {
        assert(chars@.subrange(at as int, at + needle@.len()) =~= needle@);
    }
    true
}

/// Tells whether a text starts with another one.
pub fn starts_with(chars: &Vec<char>, prefix: &str) -> (r: bool)
    ensures
        r == prefix@.is_prefix_of(chars@),
{
    let needle = chars_of(prefix);
    if needle.len() > chars.len() {
        return false;
    }
    stands_at(chars, 0, &needle)
}

/// Tells whether two texts are the same.
pub fn equals(chars: &Vec<char>, other: &str) -> (r: bool)
    ensures
        r == (chars@ == other@),
{
    let needle = chars_of(other);
    if needle.len() != chars.len() {
        return false;
    }
    proof {
        assert(chars@.subrange(0, chars@.len() as int) =~= chars@);
    }
    stands_at(chars, 0, &needle)
}

/// `needle` stands somewhere in `s`.
pub open spec fn has_part(s: Seq<char>, needle: Seq<char>) -> bool {
    exists|i: int|
        0 <= i && i + needle.len() <= s.len() && #[trigger] s.subrange(i, i + needle.len())
            == needle
}

/// Tells whether a text has another one in it.
pub fn contains(chars: &Vec<char>, needle: &str) -> (r: bool)
    ensures
        r == has_part(chars@, needle@),
{
    let pattern = chars_of(needle);
    if pattern.len() > chars.len() {
        return false;
    }
    let last = chars.len() - pattern.len();
    let mut i: usize = 0;
    loop
        invariant
            pattern@ == needle@,
            last + needle@.len() == chars@.len(),
            i <= last,
            forall|j: int|
                0 <= j < i ==> #[trigger] chars@.subrange(j, j + needle@.len()) != needle@,
        decreases last - i,
    {
        if stands_at(chars, i, &pattern) {
            return true;
        }
        if i == last {
            return false;
        }
        i = i + 1;
    }
}

/// Position of the first `c`, or the length where there is none.
pub open spec fn first_at(s: Seq<char>, c: char) -> nat
    decreases s.len(),
{
    if s.len() == 0 || s[0] == c {
        0
    } else {
        1 + first_at(s.drop_first(), c)
    }
}

/// The first `c` is a `c`, and there is none before it.
pub proof fn lemma_first_at(s: Seq<char>, c: char)
    ensures
        first_at(s, c) <= s.len(),
        forall|j: int| 0 <= j < first_at(s, c) ==> s[j] != c,
        first_at(s, c) < s.len() ==> s[first_at(s, c) as int] == c,
    decreases s.len(),
{
    if s.len() > 0 && s[0] != c {
        let t = s.drop_first();
        lemma_first_at(t, c);
        assert forall|j: int| 0 <= j < first_at(s, c) implies s[j] != c by {
            if j > 0 {
                assert(t[j - 1] == s[j]);
            }
        }
        if first_at(s, c) < s.len() {
            assert(s[first_at(s, c) as int] == t[first_at(t, c) as int]);
        }
    }
}

/// Finds the first `c` from position `from` on.
pub fn find(chars: &Vec<char>, from: usize, c: char) -> (r: usize)
    requires
        from <= chars@.len(),
    ensures
        r == from + first_at(chars@.subrange(from as int, chars@.len() as int), c),
        r <= chars@.len(),
{
    let n = chars.len();
    let mut i: usize = from;
    let ghost tail = chars@.subrange(from as int, n as int);
    while i < n && chars[i] != c
        invariant
            from <= i <= n == chars@.len(),
            tail == chars@.subrange(from as int, n as int),
            first_at(tail, c) == i - from + first_at(chars@.subrange(i as int, n as int), c),
        decreases n - i,
    {
        proof {
            assert(chars@.subrange(i as int, n as int).drop_first() =~= chars@.subrange(
                i + 1,
                n as int,
            ));
        }
        i = i + 1;
    }
    i
}

/// A text without a prefix that it may start with several times over.
pub open spec fn without_prefixes(s: Seq<char>, prefix: Seq<char>) -> Seq<char>
    decreases s.len(),
{
    if prefix.len() > 0 && prefix.is_prefix_of(s) {
        without_prefixes(s.skip(prefix.len() as int), prefix)
    } else {
        s
    }
}

/// Removes a prefix as often as the text starts with it.
pub fn strip_prefixes(chars: &Vec<char>, prefix: &str) -> (r: Vec<char>)
    ensures
        r@ == without_prefixes(chars@, prefix@),
{
    let needle = chars_of(prefix);
    let n = chars.len();
    let mut from: usize = 0;
    proof {
        assert(chars@.subrange(0, n as int) =~= chars@);
    }
    while needle.len() > 0 && needle.len() <= n - from && stands_at(chars, from, &needle)
        invariant
            needle@ == prefix@,
            from <= n == chars@.len(),
            without_prefixes(chars@, prefix@) == without_prefixes(
                chars@.subrange(from as int, n as int),
                prefix@,
            ),
        decreases n - from,
    {
        proof {
            let s = chars@.subrange(from as int, n as int);
            assert(s.subrange(0, prefix@.len() as int) =~= chars@.subrange(
                from as int,
                from + prefix@.len(),
            ));
            assert(s.skip(prefix@.len() as int) =~= chars@.subrange(
                from + prefix@.len(),
                n as int,
            ));
        }
        from = from + needle.len();
    }
    proof {
        let s = chars@.subrange(from as int, n as int);
        if prefix@.len() > 0 && prefix@.is_prefix_of(s) {
            assert(s.subrange(0, prefix@.len() as int) =~= chars@.subrange(
                from as int,
                from + prefix@.len(),
            ));
        }
    }
    part(chars, from, n)
}

/// A line without the carriage return that belongs to its line ending.
pub open spec fn without_return(line: Seq<char>) -> Seq<char> {
    if line.len() > 0 && line.last() == '\r' {
        line.drop_last()
    } else {
        line
    }
}

/// The lines of a text. They end in a line feed, or in a carriage return and a
/// line feed; the last one need not.
pub open spec fn lines_of(s: Seq<char>) -> Seq<Seq<char>>
    decreases s.len(),
{
    let end = first_at(s, '\n');
    if s.len() == 0 {
        Seq::empty()
    } else if end >= s.len() {
        seq![s]
    } else {
        seq![without_return(s.take(end as int))] + lines_of(s.skip((end + 1) as int))
    }
}

/// The contents of some vectors of characters.
pub open spec fn contents(v: Seq<Vec<char>>) -> Seq<Seq<char>> {
    v.map_values(|x: Vec<char>| x@)
}

/// The contents of some strings.
pub open spec fn texts(v: Seq<String>) -> Seq<Seq<char>> {
    v.map_values(|x: String| x@)
}

/// Splits a text into its lines.
pub fn lines(text: &str) -> (r: Vec<Vec<char>>)
    ensures
        contents(r@) == lines_of(text@),
{
    let chars = chars_of(text);
    let n = chars.len();
    let mut out: Vec<Vec<char>> = Vec::new();
    let mut from: usize = 0;
    proof {
        assert(chars@.subrange(0, n as int) =~= chars@);
        assert(contents(out@) + lines_of(chars@) =~= lines_of(chars@));
    }
    while from < n
        invariant
            from <= n == chars@.len(),
            contents(out@) + lines_of(chars@.subrange(from as int, n as int)) == lines_of(chars@),
        decreases n - from,
    {
        let ghost s = chars@.subrange(from as int, n as int);
        let ghost before = out@;
        let end = find(&chars, from, '\n');
        proof {
            lemma_first_at(s, '\n');
        }
        if end >= n {
            out.push(part(&chars, from, n));
            proof {
                assert(contents(out@) =~= contents(before) + seq![s]);
                assert(chars@.subrange(n as int, n as int) =~= Seq::<char>::empty());
                assert(contents(out@) + lines_of(Seq::<char>::empty()) =~= contents(before)
                    + lines_of(s));
            }
            from = n;
        } else {
            let stop = if end > from && chars[end - 1] == '\r' { end - 1 } else { end };
            out.push(part(&chars, from, stop));
            proof {
                let line = s.take(end - from);
                assert(line =~= chars@.subrange(from as int, end as int));
                assert(without_return(line) =~= chars@.subrange(from as int, stop as int));
                assert(s.skip(end - from + 1) =~= chars@.subrange(end + 1, n as int));
                assert(contents(out@) =~= contents(before) + seq![without_return(line)]);
                assert(contents(out@) + lines_of(chars@.subrange(end + 1, n as int))
                    =~= contents(before) + lines_of(s));
            }
            from = end + 1;
        }
    }
    proof {
        assert(chars@.subrange(from as int, n as int) =~= Seq::<char>::empty());
        assert(contents(out@) + lines_of(Seq::<char>::empty()) =~= contents(out@));
    }
    out
}

/// Texts with a separator between each two.
pub open spec fn joined(parts: Seq<Seq<char>>, separator: Seq<char>) -> Seq<char>
    decreases parts.len(),
{
    if parts.len() == 0 {
        Seq::empty()
    } else if parts.len() == 1 {
        parts[0]
    } else {
        joined(parts.drop_last(), separator) + separator + parts.last()
    }
}

/// Appends a text to a string.
pub fn append(out: &mut String, tail: &str)
    ensures
        final(out)@ == old(out)@ + tail@,
{
    let chars = chars_of(tail);
    let mut i: usize = 0;
    let ghost was = out@;
    proof {
        assert(was + chars@.take(0) =~= was);
    }
    while i < chars.len()
        invariant
            i <= chars@.len(),
            out@ == was + chars@.take(i as int),
        decreases chars.len() - i,
    {
        out.push(chars[i]);
        i = i + 1;
        proof {
            assert(chars@.take(i as int) =~= chars@.take(i - 1).push(chars@[i - 1]));
            assert(was + chars@.take(i as int) =~= (was + chars@.take(i - 1)).push(chars@[i - 1]));
        }
    }
    proof {
        assert(chars@.take(i as int) =~= chars@);
    }
}

/// Joins texts with a separator between each two.
pub fn join(parts: &Vec<String>, separator: &str) -> (r: String)
    ensures
        r@ == joined(texts(parts@), separator@),
{
    let mut out = String::new();
    let mut i: usize = 0;
    while i < parts.len()
        invariant
            i <= parts@.len(),
            out@ == joined(texts(parts@.take(i as int)), separator@),
        decreases parts.len() - i,
    {
        proof {
            let all = texts(parts@.take(i + 1));
            assert(all.drop_last() =~= texts(parts@.take(i as int)));
            assert(all.last() == parts@[i as int]@);
            assert(Seq::<char>::empty() + all.last() =~= all.last());
        }
        if i > 0 {
            append(&mut out, separator);
        }
        append(&mut out, parts[i].as_str());
        i = i + 1;
    }
    proof {
        assert(parts@.take(i as int) =~= parts@);
    }
    out
}

/// The decimal digit of a number below ten.
pub open spec fn spec_digit(n: nat) -> char {
    if n == 0 {
        '0'
    } else if n == 1 {
        '1'
    } else if n == 2 {
        '2'
    } else if n == 3 {
        '3'
    } else if n == 4 {
        '4'
    } else if n == 5 {
        '5'
    } else if n == 6 {
        '6'
    } else if n == 7 {
        '7'
    } else if n == 8 {
        '8'
    } else {
        '9'
    }
}

/// The decimal digits of a number.
pub open spec fn decimal_of(n: nat) -> Seq<char>
    decreases n,
{
    if n < 10 {
        seq![spec_digit(n)]
    } else {
        decimal_of(n / 10).push(spec_digit(n % 10))
    }
}

/// The decimal digit of a number below ten.
fn digit(n: u32) -> (r: char)
    requires
        n < 10,
    ensures
        r == spec_digit(n as nat),
{
    match n {
        0 => '0',
        1 => '1',
        2 => '2',
        3 => '3',
        4 => '4',
        5 => '5',
        6 => '6',
        7 => '7',
        8 => '8',
        _ => '9',
    }
}

/// Appends the decimal digits of a number to a string.
pub fn append_decimal(out: &mut String, n: u32)
    ensures
        final(out)@ == old(out)@ + decimal_of(n as nat),
    decreases n,
{
    if n >= 10 {
        append_decimal(out, n / 10);
    }
    out.push(digit(n % 10));
    proof {
        assert(final(out)@ =~= old(out)@ + decimal_of(n as nat));
    }
}

/// The order of texts: the first character that differs decides, and a text
/// comes before those that it starts. It is also the order of their UTF-8 bytes.
pub open spec fn before(a: Seq<char>, b: Seq<char>) -> bool
    decreases a.len(),
{
    if b.len() == 0 {
        false
    } else if a.len() == 0 {
        true
    } else if a[0] == b[0] {
        before(a.drop_first(), b.drop_first())
    } else {
        (a[0] as int) < (b[0] as int)
    }
}

/// No text comes before itself.
pub proof fn lemma_before_irreflexive(a: Seq<char>)
    ensures
        !before(a, a),
    decreases a.len(),
{
    if a.len() > 0 {
        lemma_before_irreflexive(a.drop_first());
    }
}

/// What comes before a text comes before all that it comes before.
pub proof fn lemma_before_transitive(a: Seq<char>, b: Seq<char>, c: Seq<char>)
    requires
        before(a, b),
        before(b, c),
    ensures
        before(a, c),
    decreases a.len(),
{
    if a.len() > 0 && a[0] == b[0] && b[0] == c[0] {
        lemma_before_transitive(a.drop_first(), b.drop_first(), c.drop_first());
    }
}

/// Of two different texts one comes before the other.
pub proof fn lemma_before_total(a: Seq<char>, b: Seq<char>)
    ensures
        before(a, b) || before(b, a) || a == b,
    decreases a.len(),
{
    if a.len() == 0 || b.len() == 0 {
        if a.len() == 0 && b.len() == 0 {
            assert(a =~= b);
        }
    } else if a[0] == b[0] {
        lemma_before_total(a.drop_first(), b.drop_first());
        if a.drop_first() == b.drop_first() {
            assert(a =~= seq![a[0]] + a.drop_first());
            assert(b =~= seq![b[0]] + b.drop_first());
        }
    } else {
        assert(a[0] as int != b[0] as int);
    }
}

/// The number of a character.
fn code_point(c: char) -> (r: u32)
    ensures
        r == c as int,
{
    c as u32
}

/// How two texts stand in the order.
#[derive(Clone, Copy, PartialEq, Eq, Structural, Debug)]
pub enum Standing {
    Before,
    Same,
    After,
}

/// Tells how two texts stand in the order.
pub fn standing(a: &str, b: &str) -> (r: Standing)
    ensures
        r is Before <==> before(a@, b@),
        r is Same <==> a@ == b@,
        r is After <==> before(b@, a@),
{
    let x = chars_of(a);
    let y = chars_of(b);
    let mut i: usize = 0;
    proof {
        assert(x@.subrange(0, x@.len() as int) =~= x@);
        assert(y@.subrange(0, y@.len() as int) =~= y@);
        lemma_before_total(a@, b@);
        lemma_before_irreflexive(a@);
        if before(a@, b@) && before(b@, a@) {
            lemma_before_transitive(a@, b@, a@);
        }
    }
    while i < x.len() && i < y.len() && x[i] == y[i]
        invariant
            x@ == a@,
            y@ == b@,
            i <= x@.len(),
            i <= y@.len(),
            before(a@, b@) == before(
                x@.subrange(i as int, x@.len() as int),
                y@.subrange(i as int, y@.len() as int),
            ),
            before(b@, a@) == before(
                y@.subrange(i as int, y@.len() as int),
                x@.subrange(i as int, x@.len() as int),
            ),
        decreases x.len() - i,
    {
        proof {
            assert(x@.subrange(i as int, x@.len() as int).drop_first() =~= x@.subrange(
                i + 1,
                x@.len() as int,
            ));
            assert(y@.subrange(i as int, y@.len() as int).drop_first() =~= y@.subrange(
                i + 1,
                y@.len() as int,
            ));
        }
        i = i + 1;
    }
    if i < x.len() {
        if i < y.len() {
            if code_point(x[i]) < code_point(y[i]) {
                Standing::Before
            } else {
                Standing::After
            }
        } else {
            Standing::After
        }
    } else if i < y.len() {
        Standing::Before
    } else {
        Standing::Same
    }
}

} // verus!
