//! Texts: splitting them, and writing numbers into them.

use vstd::prelude::*;

verus! {

/// The position of the first `mark` in `text`, or the length of `text`.
pub open spec fn index_of(text: Seq<char>, mark: char) -> int
    decreases text.len(),
{
    if text.len() == 0 || text[0] == mark {
        0
    } else {
        1 + index_of(text.drop_first(), mark)
    }
}

/// What `index_of` gives, said without recursion.
pub proof fn lemma_index_of(text: Seq<char>, mark: char)
    ensures
        0 <= index_of(text, mark) <= text.len(),
        forall|i: int| 0 <= i < index_of(text, mark) ==> text[i] != mark,
        index_of(text, mark) < text.len() ==> text[index_of(text, mark)] == mark,
    decreases text.len(),
{
    if text.len() > 0 && text[0] != mark {
        let rest = text.drop_first();
        lemma_index_of(rest, mark);
        assert forall|i: int| 0 <= i < index_of(text, mark) implies text[i] != mark by {
            if i > 0 {
                assert(rest[i - 1] == text[i]);
            }
        }
    }
}

/// A position with no `mark` before it, at a `mark` or at the end, is the first.
pub proof fn lemma_index_of_is(text: Seq<char>, mark: char, at: int)
    requires
        0 <= at <= text.len(),
        forall|i: int| 0 <= i < at ==> text[i] != mark,
        at < text.len() ==> text[at] == mark,
    ensures
        index_of(text, mark) == at,
{
    lemma_index_of(text, mark);
    let n = index_of(text, mark);
    if n < at {
        assert(text[n] == mark);
    } else if at < n {
        assert(text[at] != mark);
    }
}

/// The pieces between the `mark`s: always at least one.
pub open spec fn split(text: Seq<char>, mark: char) -> Seq<Seq<char>>
    decreases text.len(),
{
    let at = index_of(text, mark);
    if 0 <= at < text.len() {
        seq![text.take(at)] + split(text.skip(at + 1), mark)
    } else {
        seq![text]
    }
}

/// A text without a `mark` is one piece.
pub proof fn lemma_split_plain(text: Seq<char>, mark: char)
    requires
        forall|i: int| 0 <= i < text.len() ==> text[i] != mark,
    ensures
        split(text, mark) == seq![text],
{
    lemma_index_of_is(text, mark, text.len() as int);
}

/// A text with a `mark` in it has the pieces of what stands before and after.
pub proof fn lemma_split_concat(a: Seq<char>, b: Seq<char>, mark: char)
    ensures
        split(a + seq![mark] + b, mark) == split(a, mark) + split(b, mark),
    decreases a.len(),
{
    let whole = a + seq![mark] + b;
    let at = index_of(a, mark);
    lemma_index_of(a, mark);
    assert forall|i: int| 0 <= i < at implies whole[i] != mark by {
        assert(whole[i] == a[i]);
    }
    assert(whole[at] == mark);
    lemma_index_of_is(whole, mark, at);
    assert(whole.take(at) =~= a.take(at));
    if at < a.len() {
        assert(whole.skip(at + 1) =~= a.skip(at + 1) + seq![mark] + b);
        lemma_split_concat(a.skip(at + 1), b, mark);
        assert(seq![a.take(at)] + (split(a.skip(at + 1), mark) + split(b, mark)) =~= seq![
            a.take(at),
        ] + split(a.skip(at + 1), mark) + split(b, mark));
    } else {
        assert(whole.skip(at + 1) =~= b);
        assert(a.take(at) =~= a);
    }
}

/// No piece holds a `mark`.
pub proof fn lemma_split_pieces(text: Seq<char>, mark: char)
    ensures
        split(text, mark).len() > 0,
        forall|i: int, j: int|
            #![trigger split(text, mark)[i][j]]
            0 <= i < split(text, mark).len() && 0 <= j < split(text, mark)[i].len() ==> split(
                text,
                mark,
            )[i][j] != mark,
    decreases text.len(),
{
    let at = index_of(text, mark);
    lemma_index_of(text, mark);
    if at < text.len() {
        let rest = text.skip(at + 1);
        lemma_split_pieces(rest, mark);
        let pieces = split(text, mark);
        assert forall|i: int, j: int|
            #![trigger pieces[i][j]]
            0 <= i < pieces.len() && 0 <= j < pieces[i].len() implies pieces[i][j] != mark by {
            if i > 0 {
                assert(pieces[i] == split(rest, mark)[i - 1]);
                assert(split(rest, mark)[i - 1][j] != mark);
            }
        }
    }
}

/// Pieces without a `mark` that are written with it between them are the pieces
/// of what is written.
pub proof fn lemma_split_joined(parts: Seq<Seq<char>>, mark: char)
    requires
        parts.len() > 0,
        forall|i: int, j: int|
            #![trigger parts[i][j]]
            0 <= i < parts.len() && 0 <= j < parts[i].len() ==> parts[i][j] != mark,
    ensures
        split(joined(parts, seq![mark]), mark) == parts,
        parts[0].len() > 0 ==> joined(parts, seq![mark]).len() > 0 && joined(
            parts,
            seq![mark],
        )[0] == parts[0][0],
    decreases parts.len(),
{
    if parts.len() == 1 {
        assert forall|j: int| 0 <= j < parts[0].len() implies parts[0][j] != mark by {
            assert(parts[0][j] != mark);
        }
        lemma_split_plain(parts[0], mark);
        assert(seq![parts[0]] =~= parts);
    } else {
        let fewer = parts.drop_last();
        assert forall|i: int, j: int|
            #![trigger fewer[i][j]]
            0 <= i < fewer.len() && 0 <= j < fewer[i].len() implies fewer[i][j] != mark by {
            assert(parts[i][j] != mark);
        }
        lemma_split_joined(fewer, mark);
        lemma_split_concat(joined(fewer, seq![mark]), parts.last(), mark);
        assert forall|j: int| 0 <= j < parts.last().len() implies parts.last()[j] != mark by {
            assert(parts[parts.len() - 1][j] != mark);
        }
        lemma_split_plain(parts.last(), mark);
        assert(fewer + seq![parts.last()] =~= parts);
    }
}

/// The digit with value `d`.
pub open spec fn digit(d: nat) -> char {
    if d == 0 {
        '0'
    } else if d == 1 {
        '1'
    } else if d == 2 {
        '2'
    } else if d == 3 {
        '3'
    } else if d == 4 {
        '4'
    } else if d == 5 {
        '5'
    } else if d == 6 {
        '6'
    } else if d == 7 {
        '7'
    } else if d == 8 {
        '8'
    } else {
        '9'
    }
}

/// `n` in decimal, without leading zeros.
pub open spec fn decimal(n: nat) -> Seq<char>
    decreases n,
{
    if n < 10 {
        seq![digit(n)]
    } else {
        decimal(n / 10).push(digit(n % 10))
    }
}

/// Texts that agree up to a mark, which stands in neither before it, agree
/// before and behind it.
pub proof fn lemma_parts_at_mark(
    a: Seq<char>,
    b: Seq<char>,
    mark: char,
    x: Seq<char>,
    y: Seq<char>,
)
    requires
        a + seq![mark] + x == b + seq![mark] + y,
        forall|i: int| 0 <= i < a.len() ==> a[i] != mark,
        forall|i: int| 0 <= i < b.len() ==> b[i] != mark,
    ensures
        a == b,
        x == y,
{
    let whole = a + seq![mark] + x;
    let other = b + seq![mark] + y;
    assert(whole[a.len() as int] == mark);
    assert(other[b.len() as int] == mark);
    if a.len() < b.len() {
        assert(other[a.len() as int] == b[a.len() as int]);
    } else if b.len() < a.len() {
        assert(whole[b.len() as int] == a[b.len() as int]);
    }
    assert(a =~= whole.take(a.len() as int));
    assert(b =~= other.take(b.len() as int));
    assert(x =~= whole.skip(a.len() as int + 1));
    assert(y =~= other.skip(b.len() as int + 1));
}

/// Numbers that are written alike are the same. Only digits are written.
pub proof fn lemma_decimal(a: nat, b: nat)
    ensures
        decimal(a) == decimal(b) ==> a == b,
        decimal(a).len() > 0,
        forall|i: int| 0 <= i < decimal(a).len() ==> '0' <= #[trigger] decimal(a)[i] <= '9',
    decreases a,
{
    if a >= 10 {
        lemma_decimal(a / 10, b / 10);
        let more = decimal(a / 10);
        assert(decimal(a).drop_last() =~= more);
        assert(decimal(a).last() == digit(a % 10));
    }
    if b >= 10 {
        assert(decimal(b).drop_last() =~= decimal(b / 10));
        assert(decimal(b).last() == digit(b % 10));
        lemma_decimal_len(b / 10);
    }
    if a < 10 && decimal(a) == decimal(b) {
        assert(decimal(a).len() == 1);
        assert(decimal(a)[0] == digit(a));
        assert(b < 10);
        assert(decimal(b)[0] == digit(b));
    }
}

proof fn lemma_decimal_len(n: nat)
    ensures
        decimal(n).len() > 0,
    decreases n,
{
    if n >= 10 {
        lemma_decimal_len(n / 10);
    }
}

/// The characters of `text`.
pub fn characters(text: &str) -> (chars: Vec<char>)
    ensures
        chars@ == text@,
{
    let mut chars: Vec<char> = Vec::new();
    for c in it: text.chars()
        invariant
            chars@ == it.seq().take(it.index() as int),
            it.seq() == text@,
    {
        chars.push(c);
    }
    assert(text@.take(text@.len() as int) =~= text@);
    chars
}

/// The position of the first `mark`, or the number of characters.
pub fn find(text: &str, mark: char) -> (at: usize)
    ensures
        at == index_of(text@, mark),
        at <= text@.len(),
{
    let chars = characters(text);
    let mut i: usize = 0;
    while i < chars.len() && chars[i] != mark
        invariant
            i <= chars@.len(),
            chars@ == text@,
            forall|j: int| 0 <= j < i ==> text@[j] != mark,
        decreases chars@.len() - i,
    {
        i += 1;
    }
    proof {
        lemma_index_of_is(text@, mark, i as int);
    }
    i
}

/// The characters of `text` from one position up to another.
pub fn slice(text: &str, from: usize, to: usize) -> (part: String)
    requires
        from <= to <= text@.len(),
    ensures
        part@ == text@.subrange(from as int, to as int),
{
    text.substring_char(from, to).to_owned()
}

/// Splits `text` at every `mark`.
pub fn split_text(text: &str, mark: char) -> (pieces: Vec<String>)
    ensures
        pieces.deep_view() == split(text@, mark),
        pieces@.len() >= 1,
{
    let chars = characters(text);
    let mut pieces: Vec<String> = Vec::new();
    let mut start: usize = 0;
    let mut i: usize = 0;
    assert(text@.skip(0) =~= text@);
    assert(pieces.deep_view() + split(text@, mark) =~= split(text@, mark));
    while i < chars.len()
        invariant
            start <= i <= chars@.len(),
            chars@ == text@,
            forall|j: int| start <= j < i ==> text@[j] != mark,
            pieces.deep_view() + split(text@.skip(start as int), mark) == split(text@, mark),
        decreases chars@.len() - i,
    {
        if chars[i] == mark {
            let piece: String = slice(text, start, i);
            proof {
                let rest = text@.skip(start as int);
                let at = i - start;
                assert forall|j: int| 0 <= j < at implies rest[j] != mark by {
                    assert(rest[j] == text@[start + j]);
                }
                lemma_index_of_is(rest, mark, at);
                assert(rest.take(at) =~= piece@);
                assert(rest.skip(at + 1) =~= text@.skip(i + 1));
                assert(split(rest, mark) == seq![piece@] + split(text@.skip(i + 1), mark));
            }
            let ghost before = pieces.deep_view();
            pieces.push(piece);
            proof {
                assert(pieces.deep_view() =~= before.push(piece@));
                assert(before + (seq![piece@] + split(text@.skip(i + 1), mark)) =~= before.push(
                    piece@,
                ) + split(text@.skip(i + 1), mark));
            }
            start = i + 1;
        }
        i += 1;
    }
    let piece: String = slice(text, start, chars.len());
    proof {
        let rest = text@.skip(start as int);
        lemma_index_of_is(rest, mark, rest.len() as int);
        assert(rest =~= piece@);
    }
    let ghost before = pieces.deep_view();
    pieces.push(piece);
    proof {
        assert(pieces.deep_view() =~= before + seq![piece@]);
    }
    pieces
}

fn digit_text(d: u64) -> (text: &'static str)
    requires
        d < 10,
    ensures
        text@ == seq![digit(d as nat)],
{
    proof {
        reveal_strlit("0");
        reveal_strlit("1");
        reveal_strlit("2");
        reveal_strlit("3");
        reveal_strlit("4");
        reveal_strlit("5");
        reveal_strlit("6");
        reveal_strlit("7");
        reveal_strlit("8");
        reveal_strlit("9");
    }
    let text: &'static str = match d {
        0 => "0",
        1 => "1",
        2 => "2",
        3 => "3",
        4 => "4",
        5 => "5",
        6 => "6",
        7 => "7",
        8 => "8",
        _ => "9",
    };
    assert(text@ =~= seq![digit(d as nat)]);
    text
}

/// Writes `n` in decimal.
pub fn decimal_text(n: u64) -> (text: String)
    ensures
        text@ == decimal(n as nat),
    decreases n,
{
    if n < 10 {
        digit_text(n).to_owned()
    } else {
        let mut text: String = decimal_text(n / 10);
        text.append(digit_text(n % 10));
        assert(text@ =~= decimal(n as nat / 10).push(digit(n as nat % 10)));
        text
    }
}

/// The number that digits make up.
pub open spec fn value_of(digits: Seq<char>) -> int
    decreases digits.len(),
{
    if digits.len() == 0 {
        0
    } else {
        value_of(digits.drop_last()) * 10 + (digits.last() as int - '0' as int)
    }
}

proof fn lemma_value_of_decimal(n: nat)
    ensures
        value_of(decimal(n)) == n,
    decreases n,
{
    let digits = decimal(n);
    if n < 10 {
        assert(digits.drop_last() =~= Seq::<char>::empty());
        assert(value_of(digits.drop_last()) == 0);
    } else {
        lemma_value_of_decimal(n / 10);
        assert(digits.drop_last() =~= decimal(n / 10));
    }
}

proof fn lemma_value_of_more(digits: Seq<char>, i: int)
    requires
        forall|j: int| 0 <= j < digits.len() ==> '0' <= #[trigger] digits[j] <= '9',
        0 <= i <= digits.len(),
    ensures
        0 <= value_of(digits.take(i)) <= value_of(digits),
    decreases digits.len(),
{
    if i < digits.len() {
        let fewer = digits.drop_last();
        assert(digits.take(i) =~= fewer.take(i));
        assert('0' <= digits[digits.len() - 1] <= '9');
        assert forall|j: int| 0 <= j < fewer.len() implies '0' <= #[trigger] fewer[j] <= '9' by {
            assert(fewer[j] == digits[j]);
        }
        lemma_value_of_more(fewer, i);
    } else {
        assert(digits.take(i) =~= digits);
        if digits.len() > 0 {
            let fewer = digits.drop_last();
            assert('0' <= digits[digits.len() - 1] <= '9');
            assert forall|j: int| 0 <= j < fewer.len() implies '0' <= #[trigger] fewer[j]
                <= '9' by {
                assert(fewer[j] == digits[j]);
            }
            lemma_value_of_more(fewer, fewer.len() as int);
            assert(fewer.take(fewer.len() as int) =~= fewer);
        }
    }
}

/// The number that `text` is in decimal, if it is one.
pub fn decimal_number(text: &str) -> (number: Option<u64>)
    ensures
        match number {
            Some(number) => text@ == decimal(number as nat),
            None => forall|number: nat|
                number <= u64::MAX ==> text@ != #[trigger] decimal(number),
        },
{
    let chars: Vec<char> = characters(text);
    let mut i: usize = 0;
    let mut value: u64 = 0;
    assert(text@.take(0) =~= Seq::<char>::empty());
    while i < chars.len()
        invariant
            i <= chars@.len(),
            chars@ == text@,
            value == value_of(text@.take(i as int)),
        decreases chars@.len() - i,
    {
        let c: char = chars[i];
        proof {
            assert(text@.take(i + 1).drop_last() =~= text@.take(i as int));
            assert(text@.take(i + 1).last() == c);
        }
        let fits: bool = '0' <= c && c <= '9' && value <= (u64::MAX - ((c as u64) - ('0' as u64)))
            / 10;
        if !fits {
            assert forall|number: nat| number <= u64::MAX implies text@ != #[trigger] decimal(
                number,
            ) by {
                if text@ == decimal(number) {
                    lemma_decimal(number, number);
                    assert('0' <= decimal(number)[i as int] <= '9');
                    lemma_value_of_decimal(number);
                    lemma_value_of_more(text@, i + 1);
                }
            }
            return None;
        }
        value = value * 10 + ((c as u64) - ('0' as u64));
        i += 1;
    }
    assert(text@.take(text@.len() as int) =~= text@);
    let written: String = decimal_text(value);
    if same_text(text, written.as_str()) {
        Some(value)
    } else {
        assert forall|number: nat| number <= u64::MAX implies text@ != #[trigger] decimal(
            number,
        ) by {
            lemma_value_of_decimal(number);
        }
        None
    }
}

/// The texts of `parts` with `mark` between them.
pub open spec fn joined(parts: Seq<Seq<char>>, mark: Seq<char>) -> Seq<char>
    decreases parts.len(),
{
    if parts.len() == 0 {
        Seq::empty()
    } else if parts.len() == 1 {
        parts[0]
    } else {
        joined(parts.drop_last(), mark) + mark + parts.last()
    }
}

/// Writes the texts of `parts` with `mark` between them.
pub fn join_text(parts: &Vec<String>, mark: &str) -> (text: String)
    ensures
        text@ == joined(parts.deep_view(), mark@),
{
    let mut text: String = String::new();
    let mut i: usize = 0;
    let ghost all = parts.deep_view();
    assert(all.take(0) =~= Seq::<Seq<char>>::empty());
    while i < parts.len()
        invariant
            i <= parts@.len(),
            all == parts.deep_view(),
            text@ == joined(all.take(i as int), mark@),
        decreases parts@.len() - i,
    {
        if i > 0 {
            text.append(mark);
        }
        text.append(parts[i].as_str());
        proof {
            assert(all.take(i + 1).drop_last() =~= all.take(i as int));
            assert(all.take(i + 1).last() == all[i as int]);
            if i == 0 {
                assert(all.take(1)[0] == all[0]);
                assert(text@ =~= all[0]);
            }
        }
        i += 1;
    }
    assert(all.take(all.len() as int) =~= all);
    text
}

/// Whether two texts are the same.
pub fn same_text(a: &str, b: &str) -> (same: bool)
    ensures
        same == (a@ == b@),
{
    let left: Vec<char> = characters(a);
    let right: Vec<char> = characters(b);
    if left.len() != right.len() {
        return false;
    }
    let mut i: usize = 0;
    while i < left.len()
        invariant
            i <= left@.len(),
            left@.len() == right@.len(),
            left@ == a@,
            right@ == b@,
            forall|j: int| 0 <= j < i ==> left@[j] == right@[j],
        decreases left@.len() - i,
    {
        if left[i] != right[i] {
            return false;
        }
        i += 1;
    }
    assert(a@ =~= b@);
    true
}

/// The text with every `\\` as `/`.
pub open spec fn with_slashes(text: Seq<char>) -> Seq<char> {
    text.map_values(|c: char| if c == '\\' { '/' } else { c })
}

/// Writes every `\\` as `/`.
pub fn to_slashes(text: &str) -> (written: String)
    ensures
        written@ == with_slashes(text@),
{
    let chars: Vec<char> = characters(text);
    let mut written: String = String::new();
    let mut i: usize = 0;
    assert(written@ =~= with_slashes(text@).take(0));
    while i < chars.len()
        invariant
            i <= chars@.len(),
            chars@ == text@,
            written@ == with_slashes(text@).take(i as int),
        decreases chars@.len() - i,
    {
        let part: String = if chars[i] == '\\' {
            "/".to_owned()
        } else {
            slice(text, i, i + 1)
        };
        proof {
            reveal_strlit("/");
            assert(part@ =~= seq![with_slashes(text@)[i as int]]);
            assert(with_slashes(text@).take(i + 1) =~= with_slashes(text@).take(i as int) + part@);
        }
        written.append(part.as_str());
        i += 1;
    }
    assert(with_slashes(text@).take(text@.len() as int) =~= with_slashes(text@));
    written
}

/// A number is written with digits alone, which make it up in decimal, and without
/// leading zeros.
pub proof fn law_numbers_are_written_in_decimal(n: nat)
    ensures
        value_of(decimal(n)) == n,
        decimal(n).len() >= 1,
        decimal(n).len() > 1 ==> decimal(n)[0] != '0',
        forall|i: int| 0 <= i < decimal(n).len() ==> '0' <= #[trigger] decimal(n)[i] <= '9',
    decreases n,
{
    lemma_value_of_decimal(n);
    lemma_decimal(n, n);
    if n >= 10 {
        law_numbers_are_written_in_decimal(n / 10);
        assert(decimal(n)[0] == decimal(n / 10)[0]);
        if decimal(n / 10).len() == 1 {
            assert(n / 10 > 0);
            if decimal(n / 10)[0] == '0' {
                assert(decimal(n / 10).drop_last() =~= Seq::<char>::empty());
                assert(value_of(decimal(n / 10).drop_last()) == 0);
                assert(value_of(decimal(n / 10)) == 0);
            }
        }
    }
}

/// Nothing but `\\` is written otherwise, and that as `/`.
pub proof fn law_only_backslashes_are_replaced(text: Seq<char>)
    ensures
        with_slashes(text).len() == text.len(),
        forall|i: int|
            0 <= i < text.len() ==> {
                &&& text[i] == '\\' ==> #[trigger] with_slashes(text)[i] == '/'
                &&& text[i] != '\\' ==> with_slashes(text)[i] == text[i]
            },
{
}

} // verus!
