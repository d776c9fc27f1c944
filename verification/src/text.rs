//! Text: the order of labels, joining, counting words, and writing numbers.
//!
//! A text is the sequence of its characters. Labels are ordered as dictionaries order them, by the
//! code points of their characters.

use vstd::prelude::*;

verus! {

/// Dictionary order: `a` stands strictly before `b`.
pub open spec fn before(a: Seq<char>, b: Seq<char>) -> bool
    decreases b.len(),
{
    if b.len() == 0 {
        false
    } else if a.len() == 0 {
        true
    } else {
        a[0] < b[0] || (a[0] == b[0] && before(a.drop_first(), b.drop_first()))
    }
}

/// Nothing stands before itself.
pub proof fn before_irreflexive(a: Seq<char>)
    ensures
        !before(a, a),
    decreases a.len(),
{
    if a.len() > 0 {
        before_irreflexive(a.drop_first());
    }
}

/// What stands before a text stands before all that the text stands before.
pub proof fn before_transitive(a: Seq<char>, b: Seq<char>, c: Seq<char>)
    requires
        before(a, b),
        before(b, c),
    ensures
        before(a, c),
    decreases b.len(),
{
    if a.len() > 0 && b.len() > 0 && a[0] == b[0] && b[0] == c[0] {
        before_transitive(a.drop_first(), b.drop_first(), c.drop_first());
    }
}

/// Of two different texts one stands before the other.
pub proof fn before_total(a: Seq<char>, b: Seq<char>)
    ensures
        a == b || before(a, b) || before(b, a),
    decreases a.len(),
{
    if a.len() == 0 || b.len() == 0 {
        if a.len() == b.len() {
            assert(a =~= b);
        }
    } else if a[0] == b[0] {
        before_total(a.drop_first(), b.drop_first());
        if a.drop_first() == b.drop_first() {
            assert(a =~= seq![a[0]] + a.drop_first());
            assert(b =~= seq![b[0]] + b.drop_first());
        }
    }
}

/// The characters of a text.
pub fn chars_of(s: &str) -> (r: Vec<char>)
    ensures
        r@ == s@,
{
    let mut out: Vec<char> = Vec::new();
    for c in it: s.chars()
        invariant
            out@ == it.seq().take(it.index() as int),
            it.seq() == s@,
    {
        out.push(c);
    }
    assert(out@ =~= s@);
    out
}

/// Whether two texts hold the same characters.
pub fn same(a: &str, b: &str) -> (r: bool)
    ensures
        r == (a@ == b@),
{
    a.to_owned() == b.to_owned()
}

/// Whether `a` stands strictly before `b` in dictionary order.
pub fn precedes(a: &str, b: &str) -> (r: bool)
    ensures
        r == before(a@, b@),
{
    let x = chars_of(a);
    let y = chars_of(b);
    let mut i: usize = 0;
    proof {
        assert(x@.skip(0) =~= a@);
        assert(y@.skip(0) =~= b@);
    }
    while i < x.len() && i < y.len()
        invariant
            i <= x.len(),
            i <= y.len(),
            x@ == a@,
            y@ == b@,
            before(a@, b@) == before(x@.skip(i as int), y@.skip(i as int)),
        decreases x.len() - i,
    {
        proof {
            assert(x@.skip(i as int).drop_first() =~= x@.skip(i + 1));
            assert(y@.skip(i as int).drop_first() =~= y@.skip(i + 1));
        }
        if x[i] < y[i] {
            return true;
        }
        if y[i] < x[i] {
            return false;
        }
        i += 1;
    }
    i < y.len()
}

/// Texts put together with a separator between each two.
pub open spec fn joined(parts: Seq<Seq<char>>, separator: Seq<char>) -> Seq<char>
    decreases parts.len(),
{
    if parts.len() == 0 {
        Seq::empty()
    } else if parts.len() == 1 {
        parts[0]
    } else {
        joined(parts.drop_last(), separator) + separator + parts.last()
    }
}

/// The characters of each text of a list.
pub open spec fn texts_of(s: Seq<String>) -> Seq<Seq<char>> {
    Seq::new(s.len(), |i: int| s[i]@)
}

/// The characters of each text of a list of borrowed texts.
pub open spec fn names_of(s: Seq<&str>) -> Seq<Seq<char>> {
    Seq::new(s.len(), |i: int| s[i]@)
}

/// Takes over each text of a list of borrowed texts.
pub fn own_texts(v: &[&str]) -> (r: Vec<String>)
    ensures
        texts_of(r@) == names_of(v@),
        r.len() == v.len(),
{
    let mut out: Vec<String> = Vec::new();
    let mut i: usize = 0;
    while i < v.len()
        invariant
            i <= v.len(),
            out.len() == i,
            forall|j: int| 0 <= j < i ==> (#[trigger] out@[j])@ == v@[j]@,
        decreases v.len() - i,
    {
        out.push(v[i].to_owned());
        i += 1;
    }
    assert(texts_of(out@) =~= names_of(v@));
    out
}

/// Puts texts together with a separator between each two.
pub fn join(parts: &Vec<String>, separator: &str) -> (r: String)
    ensures
        r@ == joined(texts_of(parts@), separator@),
{
    let mut out = String::new();
    let mut i: usize = 0;
    while i < parts.len()
        invariant
            i <= parts.len(),
            out@ == joined(texts_of(parts@).take(i as int), separator@),
        decreases parts.len() - i,
    {
        proof {
            assert(texts_of(parts@).take(i + 1).drop_last() =~= texts_of(parts@).take(i as int));
            assert(i == 0 ==> texts_of(parts@).take(i as int) =~= Seq::empty());
        }
        if i > 0 {
            out.append(separator);
        }
        out.append(parts[i].as_str());
        proof {
            assert(out@ =~= joined(texts_of(parts@).take(i + 1), separator@));
        }
        i += 1;
    }
    proof {
        assert(texts_of(parts@).take(i as int) =~= texts_of(parts@));
    }
    out
}

/// Copies a list of texts.
pub fn copy_texts(v: &Vec<String>) -> (r: Vec<String>)
    ensures
        texts_of(r@) == texts_of(v@),
        r.len() == v.len(),
{
    let mut out: Vec<String> = Vec::new();
    let mut i: usize = 0;
    while i < v.len()
        invariant
            i <= v.len(),
            out.len() == i,
            forall|j: int| 0 <= j < i ==> (#[trigger] out@[j])@ == v@[j]@,
        decreases v.len() - i,
    {
        out.push(v[i].clone());
        i += 1;
    }
    assert(texts_of(out@) =~= texts_of(v@));
    out
}

/// Whether a text is on a list.
pub fn listed(v: &Vec<String>, s: &str) -> (r: bool)
    ensures
        r == texts_of(v@).contains(s@),
{
    let mut i: usize = 0;
    while i < v.len()
        invariant
            i <= v.len(),
            forall|j: int| 0 <= j < i ==> (#[trigger] texts_of(v@)[j]) != s@,
        decreases v.len() - i,
    {
        if same(v[i].as_str(), s) {
            assert(texts_of(v@)[i as int] == s@);
            return true;
        }
        i += 1;
    }
    false
}

/// The different texts of a list, in the order in which each comes up first.
pub open spec fn distinct_of(names: Seq<Seq<char>>) -> Seq<Seq<char>>
    decreases names.len(),
{
    if names.len() == 0 {
        Seq::empty()
    } else {
        let had = distinct_of(names.drop_last());
        if had.contains(names.last()) {
            had
        } else {
            had.push(names.last())
        }
    }
}

/// The different texts of a list are those of the list, each once.
pub proof fn distinct_of_is_exact(names: Seq<Seq<char>>)
    ensures
        distinct_of(names).no_duplicates(),
        forall|t: Seq<char>| #[trigger] distinct_of(names).contains(t) <==> names.contains(t),
        distinct_of(names).len() <= names.len(),
    decreases names.len(),
{
    if names.len() > 0 {
        let init = names.drop_last();
        distinct_of_is_exact(init);
        let had = distinct_of(init);
        let all = distinct_of(names);
        assert forall|t: Seq<char>| #[trigger] all.contains(t) <==> names.contains(t) by {
            if all.contains(t) {
                let i = choose|i: int| 0 <= i < all.len() && all[i] == t;
                if i < had.len() {
                    assert(had[i] == t);
                    assert(had.contains(t));
                    let j = choose|j: int| 0 <= j < init.len() && init[j] == t;
                    assert(names[j] == t);
                } else {
                    assert(names[names.len() - 1] == t);
                }
            }
            if names.contains(t) {
                let j = choose|j: int| 0 <= j < names.len() && names[j] == t;
                if j < init.len() {
                    assert(init[j] == t);
                    assert(had.contains(t));
                    let i = choose|i: int| 0 <= i < had.len() && had[i] == t;
                    assert(all[i] == t);
                } else if !had.contains(t) {
                    assert(all[had.len() as int] == t);
                } else {
                    let i = choose|i: int| 0 <= i < had.len() && had[i] == t;
                    assert(all[i] == t);
                }
            }
        }
    }
}

/// The different texts of the beginning of a list are the beginning of its different texts.
pub proof fn distinct_of_grows(names: Seq<Seq<char>>, n: int)
    requires
        0 <= n <= names.len(),
    ensures
        distinct_of(names.take(n)).len() <= distinct_of(names).len(),
        distinct_of(names).take(distinct_of(names.take(n)).len() as int) == distinct_of(
            names.take(n),
        ),
    decreases names.len(),
{
    if n == names.len() {
        assert(names.take(n) =~= names);
        assert(distinct_of(names).take(distinct_of(names).len() as int) =~= distinct_of(names));
    } else {
        distinct_of_grows(names.drop_last(), n);
        assert(names.drop_last().take(n) =~= names.take(n));
        assert(distinct_of(names).take(distinct_of(names.take(n)).len() as int) =~= distinct_of(
            names.drop_last(),
        ).take(distinct_of(names.take(n)).len() as int));
    }
}

/// Whether a character is white space, as Unicode has it.
pub open spec fn is_space(c: char) -> bool {
    ||| 0x09 <= c as int <= 0x0d
    ||| c as int == 0x20
    ||| c as int == 0x85
    ||| c as int == 0xa0
    ||| c as int == 0x1680
    ||| 0x2000 <= c as int <= 0x200a
    ||| c as int == 0x2028
    ||| c as int == 0x2029
    ||| c as int == 0x202f
    ||| c as int == 0x205f
    ||| c as int == 0x3000
}

/// Whether a character is white space, as Unicode has it.
pub fn space(c: char) -> (r: bool)
    ensures
        r == is_space(c),
{
    let n: u32 = c as u32;
    (0x09 <= n && n <= 0x0d) || n == 0x20 || n == 0x85 || n == 0xa0 || n == 0x1680 || (0x2000 <= n
        && n <= 0x200a) || n == 0x2028 || n == 0x2029 || n == 0x202f || n == 0x205f || n == 0x3000
}

/// Whether a word starts at position `i` of a text.
pub open spec fn word_starts(s: Seq<char>, i: int) -> bool {
    !is_space(s[i]) && (i == 0 || is_space(s[i - 1]))
}

/// The positions of a text at which a word starts.
pub open spec fn word_starts_in(s: Seq<char>) -> Set<int> {
    Set::new(|i: int| 0 <= i < s.len() && word_starts(s, i))
}

/// The number of words of a text: maximal runs of characters that are not white space.
pub open spec fn words(s: Seq<char>) -> nat
    decreases s.len(),
{
    if s.len() == 0 {
        0
    } else {
        words(s.drop_last()) + (if word_starts(s, s.len() - 1) {
            1nat
        } else {
            0nat
        })
    }
}

/// The count of words is the number of positions at which a word starts.
pub proof fn words_are_word_starts(s: Seq<char>)
    ensures
        word_starts_in(s).finite(),
        words(s) == word_starts_in(s).len(),
        words(s) <= s.len(),
    decreases s.len(),
{
    if s.len() == 0 {
        assert(word_starts_in(s) =~= Set::empty());
    } else {
        words_are_word_starts(s.drop_last());
        let last = s.len() - 1;
        if word_starts(s, last) {
            assert(word_starts_in(s) =~= word_starts_in(s.drop_last()).insert(last));
        } else {
            assert(word_starts_in(s) =~= word_starts_in(s.drop_last()));
        }
    }
}

/// Counts the words of a text.
pub fn count_words(s: &str) -> (r: usize)
    ensures
        r == words(s@),
{
    let chars = chars_of(s);
    let mut count: usize = 0;
    let mut i: usize = 0;
    proof {
        assert(chars@.take(0) =~= Seq::empty());
    }
    while i < chars.len()
        invariant
            i <= chars.len(),
            count == words(chars@.take(i as int)),
            count <= i,
        decreases chars.len() - i,
    {
        proof {
            assert(chars@.take(i + 1).drop_last() =~= chars@.take(i as int));
        }
        if !space(chars[i]) && (i == 0 || space(chars[i - 1])) {
            count += 1;
        }
        i += 1;
    }
    proof {
        assert(chars@.take(i as int) =~= s@);
    }
    count
}

/// The number of white-space characters that a text begins with.
pub open spec fn leading_space(s: Seq<char>) -> nat
    decreases s.len(),
{
    if s.len() == 0 || !is_space(s[0]) {
        0
    } else {
        1 + leading_space(s.drop_first())
    }
}

/// The number of white-space characters that a text ends with.
pub open spec fn trailing_space(s: Seq<char>) -> nat
    decreases s.len(),
{
    if s.len() == 0 || !is_space(s.last()) {
        0
    } else {
        1 + trailing_space(s.drop_last())
    }
}

/// A text without the white space that it begins and ends with.
pub open spec fn trimmed(s: Seq<char>) -> Seq<char> {
    let inner = s.skip(leading_space(s) as int);
    inner.take(inner.len() - trailing_space(inner))
}

proof fn space_fits(s: Seq<char>)
    ensures
        leading_space(s) <= s.len(),
        trailing_space(s) <= s.len(),
    decreases s.len(),
{
    if s.len() > 0 {
        space_fits(s.drop_first());
        space_fits(s.drop_last());
    }
}

/// What is left of a text without surrounding white space neither begins nor ends with any.
pub proof fn trimmed_is_bare(s: Seq<char>)
    ensures
        ({
            let t = trimmed(s);
            t.len() > 0 ==> !is_space(t[0]) && !is_space(t.last())
        }),
{
    let lead = leading_space(s);
    let inner = s.skip(lead as int);
    space_fits(s);
    space_fits(inner);
    leading_space_ends(s);
    trailing_space_ends(inner);
}

proof fn leading_space_ends(s: Seq<char>)
    ensures
        leading_space(s) < s.len() ==> !is_space(s[leading_space(s) as int]),
    decreases s.len(),
{
    if s.len() > 0 && is_space(s[0]) {
        leading_space_ends(s.drop_first());
    }
}

proof fn trailing_space_ends(s: Seq<char>)
    ensures
        trailing_space(s) < s.len() ==> !is_space(s[s.len() - 1 - trailing_space(s)]),
    decreases s.len(),
{
    if s.len() > 0 && is_space(s.last()) {
        trailing_space_ends(s.drop_last());
    }
}

/// A text without the white space that it begins and ends with.
pub fn trim(s: &str) -> (r: &str)
    ensures
        r@ == trimmed(s@),
{
    let chars = chars_of(s);
    let n: usize = chars.len();
    let mut lead: usize = 0;
    proof {
        space_fits(s@);
        assert(s@.skip(0) =~= s@);
    }
    while lead < n && space(chars[lead])
        invariant
            lead <= n,
            n == chars.len(),
            chars@ == s@,
            leading_space(s@) == lead + leading_space(s@.skip(lead as int)),
        decreases n - lead,
    {
        proof {
            assert(s@.skip(lead as int).drop_first() =~= s@.skip(lead + 1));
        }
        lead += 1;
    }
    let ghost inner = s@.skip(lead as int);
    let mut end: usize = n;
    proof {
        space_fits(inner);
        assert(lead == leading_space(s@));
        assert(inner.take(inner.len() as int) =~= inner);
    }
    while end > lead && space(chars[end - 1])
        invariant
            lead <= end <= n,
            n == chars.len(),
            chars@ == s@,
            inner == s@.skip(lead as int),
            trailing_space(inner) == (n - end) + trailing_space(inner.take(end - lead)),
        decreases end,
    {
        proof {
            assert(inner.take(end - lead).drop_last() =~= inner.take(end - lead - 1));
        }
        end -= 1;
    }
    proof {
        assert(trailing_space(inner) == n - end);
        assert(trimmed(s@) =~= s@.subrange(lead as int, end as int));
    }
    s.substring_char(lead, end)
}

/// The number of characters before the first white space of a text.
pub open spec fn word_length(s: Seq<char>) -> nat
    decreases s.len(),
{
    if s.len() == 0 || is_space(s[0]) {
        0
    } else {
        1 + word_length(s.drop_first())
    }
}

/// The number of characters before the first white space of a text.
pub fn first_word_length(s: &str) -> (r: usize)
    ensures
        r == word_length(s@),
        r <= s@.len(),
{
    let chars = chars_of(s);
    let mut i: usize = 0;
    proof {
        assert(s@.skip(0) =~= s@);
    }
    while i < chars.len() && !space(chars[i])
        invariant
            i <= chars.len(),
            chars@ == s@,
            word_length(s@) == i + word_length(s@.skip(i as int)),
        decreases chars.len() - i,
    {
        proof {
            assert(s@.skip(i as int).drop_first() =~= s@.skip(i + 1));
        }
        i += 1;
    }
    i
}

/// A digit below sixteen, as a character.
pub open spec fn digit(n: nat) -> char {
    if n == 0 {
        '0'
    } else if n == 1 {
        '1'
    } else if n == 2 {
        '2'
    } else if n == 3 {
        '3'
    } else if n == 4 {
        '4'
    } else if n == 5 {
        '5'
    } else if n == 6 {
        '6'
    } else if n == 7 {
        '7'
    } else if n == 8 {
        '8'
    } else if n == 9 {
        '9'
    } else if n == 10 {
        'a'
    } else if n == 11 {
        'b'
    } else if n == 12 {
        'c'
    } else if n == 13 {
        'd'
    } else if n == 14 {
        'e'
    } else {
        'f'
    }
}

/// A number in decimal notation, without leading zeros.
pub open spec fn decimal(n: nat) -> Seq<char>
    decreases n,
{
    if n < 10 {
        seq![digit(n)]
    } else {
        decimal(n / 10).push(digit(n % 10))
    }
}

/// The lowest `width` hexadecimal digits of a number.
pub open spec fn hexadecimal(n: nat, width: nat) -> Seq<char>
    decreases width,
{
    if width == 0 {
        Seq::empty()
    } else {
        hexadecimal(n / 16, (width - 1) as nat).push(digit(n % 16))
    }
}

/// A digit below sixteen, as a text.
fn digit_text(n: u64) -> (r: &'static str)
    requires
        n < 16,
    ensures
        r@ == seq![digit(n as nat)],
{
    proof {
        reveal_strlit("0");
        reveal_strlit("1");
        reveal_strlit("2");
        reveal_strlit("3");
        reveal_strlit("4");
        reveal_strlit("5");
        reveal_strlit("6");
        reveal_strlit("7");
        reveal_strlit("8");
        reveal_strlit("9");
        reveal_strlit("a");
        reveal_strlit("b");
        reveal_strlit("c");
        reveal_strlit("d");
        reveal_strlit("e");
        reveal_strlit("f");
    }
    let r = match n {
        0 => "0",
        1 => "1",
        2 => "2",
        3 => "3",
        4 => "4",
        5 => "5",
        6 => "6",
        7 => "7",
        8 => "8",
        9 => "9",
        10 => "a",
        11 => "b",
        12 => "c",
        13 => "d",
        14 => "e",
        _ => "f",
    };
    assert(r@ =~= seq![digit(n as nat)]);
    r
}

/// Writes a number in decimal notation.
pub fn decimal_text(n: u64) -> (r: String)
    ensures
        r@ == decimal(n as nat),
    decreases n,
{
    if n < 10 {
        digit_text(n).to_owned()
    } else {
        let mut head = decimal_text(n / 10);
        head.append(digit_text(n % 10));
        assert(head@ =~= decimal(n as nat));
        head
    }
}

/// Writes the lowest `width` hexadecimal digits of a number.
pub fn hexadecimal_text(n: u64, width: usize) -> (r: String)
    ensures
        r@ == hexadecimal(n as nat, width as nat),
    decreases width,
{
    if width == 0 {
        String::new()
    } else {
        let mut head = hexadecimal_text(n / 16, width - 1);
        head.append(digit_text(n % 16));
        assert(head@ =~= hexadecimal(n as nat, width as nat));
        head
    }
}

/// Dictionary order: the first character in which two texts differ decides, and where one text begins
/// with all of the other, the shorter stands first.
pub proof fn the_first_difference_decides(a: Seq<char>, b: Seq<char>, n: int)
    requires
        0 <= n <= a.len(),
        n <= b.len(),
        forall|i: int| 0 <= i < n ==> a[i] == b[i],
    ensures
        n < a.len() && n < b.len() && a[n] != b[n] ==> before(a, b) == (a[n] < b[n]),
        n == a.len() ==> before(a, b) == (a.len() < b.len()),
        n == b.len() ==> !before(a, b),
    decreases n,
{
    if n > 0 {
        assert forall|i: int| 0 <= i < n - 1 implies a.drop_first()[i] == b.drop_first()[i] by {
            assert(a[i + 1] == b[i + 1]);
        }
        the_first_difference_decides(a.drop_first(), b.drop_first(), n - 1);
    }
}

/// Joined texts: nothing of nothing, a text alone as it is, and each further text behind one separator.
pub proof fn joining_puts_separators_between(
    parts: Seq<Seq<char>>,
    separator: Seq<char>,
    next: Seq<char>,
)
    ensures
        joined(Seq::empty(), separator).len() == 0,
        joined(seq![next], separator) == next,
        parts.len() > 0 ==> joined(parts.push(next), separator) == joined(parts, separator)
            + separator + next,
{
    assert(parts.push(next).drop_last() =~= parts);
}

/// A number in decimal notation: its last digit is the rest of a division by ten, and the digits before
/// it are those of the quotient; a number below ten is one digit.
pub proof fn decimals_are_positional(n: nat)
    ensures
        n < 10 ==> decimal(n).len() == 1 && decimal(n)[0] as int == '0' as int + n,
        n >= 10 ==> decimal(n).drop_last() == decimal(n / 10) && decimal(n).last() as int
            == '0' as int + n % 10,
{
    if n >= 10 {
        assert(decimal(n).drop_last() =~= decimal(n / 10));
    }
}

/// Hexadecimal digits, the most significant first.
pub proof fn hexadecimals_are_positional(n: nat, width: nat)
    ensures
        hexadecimal(n, width).len() == width,
        width > 0 ==> hexadecimal(n, width).drop_last() == hexadecimal(n / 16, (width - 1) as nat)
            && hexadecimal(n, width).last() as int == if n % 16 < 10 {
            '0' as int + n % 16
        } else {
            'a' as int + n % 16 - 10
        },
    decreases width,
{
    if width > 0 {
        hexadecimals_are_positional(n / 16, (width - 1) as nat);
        assert(hexadecimal(n, width).drop_last() =~= hexadecimal(n / 16, (width - 1) as nat));
    }
}

/// To trim a text takes white space from its ends and nothing else: what is taken is white space, and
/// what is left stands in the text as it is.
pub proof fn trimming_takes_only_space(s: Seq<char>)
    ensures
        ({
            let t = trimmed(s);
            let n = leading_space(s) as int;
            &&& n + t.len() <= s.len()
            &&& forall|i: int| 0 <= i < n ==> is_space(#[trigger] s[i])
            &&& forall|i: int| 0 <= i < t.len() ==> #[trigger] t[i] == s[n + i]
            &&& forall|i: int| n + t.len() <= i < s.len() ==> is_space(#[trigger] s[i])
        }),
{
    space_fits(s);
    leading_space_is_space(s);
    let n = leading_space(s) as int;
    let inner = s.skip(n);
    space_fits(inner);
    trailing_space_is_space(inner);
    let t = trimmed(s);
    assert forall|i: int| n + t.len() <= i < s.len() implies is_space(#[trigger] s[i]) by {
        assert(inner[i - n] == s[i]);
    }
}

proof fn leading_space_is_space(s: Seq<char>)
    ensures
        leading_space(s) <= s.len(),
        forall|i: int| 0 <= i < leading_space(s) ==> is_space(#[trigger] s[i]),
    decreases s.len(),
{
    if s.len() > 0 && is_space(s[0]) {
        leading_space_is_space(s.drop_first());
        assert forall|i: int| 0 <= i < leading_space(s) implies is_space(#[trigger] s[i]) by {
            if i > 0 {
                assert(s.drop_first()[i - 1] == s[i]);
            }
        }
    }
}

proof fn trailing_space_is_space(s: Seq<char>)
    ensures
        trailing_space(s) <= s.len(),
        forall|i: int| s.len() - trailing_space(s) <= i < s.len() ==> is_space(#[trigger] s[i]),
    decreases s.len(),
{
    if s.len() > 0 && is_space(s.last()) {
        trailing_space_is_space(s.drop_last());
        assert forall|i: int| s.len() - trailing_space(s) <= i < s.len() implies is_space(
            #[trigger] s[i],
        ) by {
            if i < s.len() - 1 {
                assert(s.drop_last()[i] == s[i]);
            }
        }
    }
}

/// Words are counted where they begin: a character that is not white space begins one exactly if it comes
/// first or behind white space.
pub proof fn words_begin_behind_space(s: Seq<char>, c: char)
    ensures
        words(Seq::empty()) == 0,
        is_space(c) ==> words(s.push(c)) == words(s),
        !is_space(c) && (s.len() == 0 || is_space(s.last())) ==> words(s.push(c)) == words(s) + 1,
        !is_space(c) && s.len() > 0 && !is_space(s.last()) ==> words(s.push(c)) == words(s),
{
    assert(s.push(c).drop_last() =~= s);
}

/// White space is what Unicode calls so: among ASCII the tab, the line feed, the vertical tab, the form
/// feed, the carriage return and the space; and beyond it, among others, the no-break space and the
/// ideographic space, but no letter.
pub proof fn white_space(c: char)
    ensures
        (c as int) < 0x80 ==> (is_space(c) <==> c == ' ' || c == '\t' || c == '\n' || c == '\r' || c
            as int == 0x0b || c as int == 0x0c),
        c as int == 0xa0 || c as int == 0x3000 || c as int == 0x2003 ==> is_space(c),
        0x3000 < c as int ==> !is_space(c),
{
}

/// The different texts of a list: a text that comes up for the first time is added behind the others, one
/// that came up before is not.
pub proof fn first_mentions_count(names: Seq<Seq<char>>, name: Seq<char>)
    ensures
        distinct_of(Seq::empty()).len() == 0,
        names.contains(name) ==> distinct_of(names.push(name)) == distinct_of(names),
        !names.contains(name) ==> distinct_of(names.push(name)) == distinct_of(names).push(name),
{
    assert(names.push(name).drop_last() =~= names);
    distinct_of_is_exact(names);
    assert(distinct_of(names).contains(name) <==> names.contains(name));
}

} // verus!
