use vstd::prelude::*;
use vstd::string::StrSliceExecFns;
use vstd::string::StringExecFns;

verus! {

/// The character that stands for the decimal digit `d`.
pub open spec fn digit_char(d: nat) -> char {
    (48 + d) as char
}

/// The decimal digit that `c` stands for, if it is one.
pub open spec fn digit_value(c: char) -> Option<nat> {
    if '0' <= c <= '9' {
        Some((c as int - 48) as nat)
    } else {
        None
    }
}

/// The decimal digits of `n`, the most significant first, without leading
/// zeros.
pub open spec fn decimal(n: nat) -> Seq<char>
    decreases n,
{
    if n < 10 {
        seq![digit_char(n)]
    } else {
        decimal(n / 10).push(digit_char(n % 10))
    }
}

/// `digits` with as many zeros before it as it takes to reach `width`
/// characters.
pub open spec fn zero_padded(digits: Seq<char>, width: nat) -> Seq<char>
    decreases width - digits.len(),
{
    if digits.len() >= width {
        digits
    } else {
        zero_padded(seq!['0'] + digits, width)
    }
}

/// The number that the decimal digits `digits` stand for; none if there is
/// no digit or if a character is not a decimal digit.
pub open spec fn decimal_value(digits: Seq<char>) -> Option<nat>
    decreases digits.len(),
{
    if digits.len() == 0 {
        None
    } else {
        match digit_value(digits.last()) {
            None => None,
            Some(d) => if digits.len() == 1 {
                Some(d)
            } else {
                match decimal_value(digits.drop_last()) {
                    None => None,
                    Some(v) => Some(v * 10 + d),
                }
            },
        }
    }
}

/// The number that `text` stands for: decimal digits, with or without a
/// plus sign before them, of a value that fits the machine word.
pub open spec fn parse_number(text: Seq<char>) -> Option<usize> {
    let digits = if text.len() > 0 && text[0] == '+' {
        text.skip(1)
    } else {
        text
    };
    match decimal_value(digits) {
        Some(v) => if v <= usize::MAX {
            Some(v as usize)
        } else {
            None
        },
        None => None,
    }
}

/// The place of the last `c` in `text`, or -1 where there is none.
pub open spec fn last_index(text: Seq<char>, c: char) -> int
    decreases text.len(),
{
    if text.len() == 0 {
        -1
    } else if text.last() == c {
        text.len() - 1
    } else {
        last_index(text.drop_last(), c)
    }
}

/// What stands between the name of a log and the number of a journal.
pub open spec fn infix() -> Seq<char> {
    seq!['-', 'j', 'o', 'u', 'r', 'n', 'a', 'l', '-']
}

/// What every journal file's name ends in.
pub open spec fn suffix() -> Seq<char> {
    seq!['.', 'd', 'a', 't']
}

/// The name of the file that holds journal `num` of the log `name`.
pub open spec fn filename_of(name: Seq<char>, num: nat) -> Seq<char> {
    name + infix() + zero_padded(decimal(num), 3) + suffix()
}

/// The log's name and the journal's number that the file name `file` gives,
/// if it is the name of a journal file.
pub open spec fn filename_parts(file: Seq<char>) -> Option<(Seq<char>, usize)> {
    let dot = last_index(file, '.');
    if dot < 0 || file.skip(dot + 1) != seq!['d', 'a', 't'] {
        None
    } else {
        let stem = file.take(dot);
        let dash = last_index(stem, '-');
        if dash < 0 {
            None
        } else {
            let head = stem.take(dash);
            let mark = last_index(head, '-');
            if mark < 0 || head.skip(mark + 1) != seq!['j', 'o', 'u', 'r', 'n', 'a', 'l'] {
                None
            } else {
                match parse_number(stem.skip(dash + 1)) {
                    Some(num) => Some((head.take(mark), num)),
                    None => None,
                }
            }
        }
    }
}

/// One decimal digit as text.
fn digit_str(d: usize) -> (text: &'static str)
    requires
        d < 10,
    ensures
        text@ == seq![digit_char(d as nat)],
{
    proof {
        reveal_strlit("0");
        reveal_strlit("1");
        reveal_strlit("2");
        reveal_strlit("3");
        reveal_strlit("4");
        reveal_strlit("5");
        reveal_strlit("6");
        reveal_strlit("7");
        reveal_strlit("8");
        reveal_strlit("9");
    }
    let text = if d == 0 {
        "0"
    } else if d == 1 {
        "1"
    } else if d == 2 {
        "2"
    } else if d == 3 {
        "3"
    } else if d == 4 {
        "4"
    } else if d == 5 {
        "5"
    } else if d == 6 {
        "6"
    } else if d == 7 {
        "7"
    } else if d == 8 {
        "8"
    } else {
        "9"
    };
    proof {
        assert(text@ =~= seq![digit_char(d as nat)]);
    }
    text
}

/// The decimal digits of `num`, padded with zeros to three characters.
fn padded_decimal(num: usize) -> (text: String)
    ensures
        text@ == zero_padded(decimal(num as nat), 3),
{
    let mut text = String::from_str(digit_str(num % 10));
    let mut n = num / 10;
    let mut len: usize = 1;
    while n > 0
        invariant
            len == text@.len(),
            len >= 1,
            n > 0 ==> decimal(num as nat) == decimal(n as nat) + text@,
            n == 0 ==> decimal(num as nat) == text@,
            len + n <= usize::MAX,
        decreases n,
    {
        let ghost before = text@;
        let d = n % 10;
        text = String::from_str(digit_str(d)).concat(text.as_str());
        proof {
            let ds = seq![digit_char(d as nat)];
            assert(text@ == ds + before);
            if n >= 10 {
                assert(decimal(n as nat) == decimal((n / 10) as nat).push(digit_char(d as nat)));
                assert(decimal((n / 10) as nat).push(digit_char(d as nat)) + before =~= decimal(
                    (n / 10) as nat,
                ) + (ds + before));
            } else {
                assert(decimal(n as nat) == ds);
            }
        }
        n = n / 10;
        len = len + 1;
    }
    while len < 3
        invariant
            len == text@.len(),
            zero_padded(text@, 3) == zero_padded(decimal(num as nat), 3),
        decreases 3 - len,
    {
        proof {
            reveal_strlit("0");
            assert("0"@ =~= seq!['0']);
        }
        text = String::from_str("0").concat(text.as_str());
        len = len + 1;
    }
    text
}

/// The name of the file that holds journal `num` of the log `name`:
/// the name, then `-journal-`, the number in decimal digits, with zeros
/// before it where it has fewer than three, and `.dat`.
pub fn make_filename(name: String, num: usize) -> (file: String)
    ensures
        file@ == filename_of(name@, num as nat),
{
    let mut file = name;
    let digits = padded_decimal(num);
    proof {
        reveal_strlit("-journal-");
        reveal_strlit(".dat");
        assert("-journal-"@ =~= infix());
        assert(".dat"@ =~= suffix());
    }
    file.append("-journal-");
    file.append(digits.as_str());
    file.append(".dat");
    file
}

/// The characters of `text`.
fn to_chars(text: &str) -> (chars: Vec<char>)
    ensures
        chars@ == text@,
{
    let mut chars: Vec<char> = Vec::new();
    for c in it: text.chars()
        invariant
            it.seq() == text@,
            chars@ == text@.take(it.index()),
    {
        proof {
            assert(text@.take(it.index() + 1) =~= text@.take(it.index()).push(c));
        }
        chars.push(c);
    }
    proof {
        assert(text@.take(text@.len() as int) =~= text@);
    }
    chars
}

/// The place of the last `c` among the first `end` characters of `chars`.
fn find_last(chars: &Vec<char>, end: usize, c: char) -> (place: Option<usize>)
    requires
        end <= chars.len(),
    ensures
        match place {
            Some(i) => i < end && last_index(chars@.take(end as int), c) == i,
            None => last_index(chars@.take(end as int), c) == -1,
        },
{
    let mut i = end;
    while i > 0
        invariant
            i <= end <= chars.len(),
            last_index(chars@.take(end as int), c) == last_index(chars@.take(i as int), c),
        decreases i,
    {
        proof {
            assert(chars@.take(i as int).drop_last() =~= chars@.take(i - 1));
        }
        if chars[i - 1] == c {
            return Some(i - 1);
        }
        i = i - 1;
    }
    None
}

/// Whether the characters of `chars` from `from` up to `to` are those of
/// `word`.
fn slice_is(chars: &Vec<char>, from: usize, to: usize, word: &Vec<char>) -> (same: bool)
    requires
        from <= to <= chars.len(),
    ensures
        same == (chars@.subrange(from as int, to as int) == word@),
{
    if to - from != word.len() {
        return false;
    }
    let ghost part = chars@.subrange(from as int, to as int);
    let mut i: usize = 0;
    while i < word.len()
        invariant
            from <= to <= chars.len(),
            to - from == word.len(),
            i <= word.len(),
            part == chars@.subrange(from as int, to as int),
            forall|k: int| 0 <= k < i ==> part[k] == word[k],
        decreases word.len() - i,
    {
        if chars[from + i] != word[i] {
            proof {
                assert(part[i as int] != word[i as int]);
            }
            return false;
        }
        i = i + 1;
    }
    proof {
        assert(part =~= word@);
    }
    true
}

/// The number that the characters of `chars` from `from` on stand for.
fn parse_digits(chars: &Vec<char>, from: usize) -> (value: Option<usize>)
    requires
        from <= chars.len(),
    ensures
        value == match decimal_value(chars@.skip(from as int)) {
            Some(v) => if v <= usize::MAX {
                Some(v as usize)
            } else {
                None
            },
            None => None,
        },
{
    let n = chars.len();
    let ghost digits = chars@.skip(from as int);
    if from == n {
        return None;
    }
    let mut acc: usize = 0;
    let mut i = from;
    while i < n
        invariant
            from <= i <= n,
            n == chars.len(),
            from < n,
            digits == chars@.skip(from as int),
            i > from ==> decimal_value(digits.take(i - from)) == Some(acc as nat),
            i == from ==> acc == 0,
        decreases n - i,
    {
        let c = chars[i];
        proof {
            assert(digits.take(i - from + 1).drop_last() =~= digits.take(i - from));
            assert(digits.take(i - from + 1).last() == c);
        }
        if !('0' <= c && c <= '9') {
            proof {
                lemma_decimal_value_prefix(digits, i - from + 1);
            }
            return None;
        }
        let d = (c as u32 - '0' as u32) as usize;
        if acc > (usize::MAX - d) / 10 {
            proof {
                lemma_decimal_value_prefix(digits, i - from + 1);
            }
            return None;
        }
        acc = acc * 10 + d;
        i = i + 1;
    }
    proof {
        assert(digits.take(n - from) =~= digits);
    }
    Some(acc)
}

/// A number in decimal digits is no smaller than the number that its first
/// `k` digits stand for, and it is no number if they are none.
pub proof fn lemma_decimal_value_prefix(digits: Seq<char>, k: int)
    requires
        1 <= k <= digits.len(),
    ensures
        decimal_value(digits.take(k)) is None ==> decimal_value(digits) is None,
        decimal_value(digits) matches Some(v) ==> decimal_value(digits.take(k)) matches Some(u)
            && u <= v,
    decreases digits.len(),
{
    if k == digits.len() {
        assert(digits.take(k) =~= digits);
    } else {
        let front = digits.drop_last();
        assert(front.take(k) =~= digits.take(k));
        lemma_decimal_value_prefix(front, k);
    }
}

/// Takes the name of a journal file apart: gives the log's name and the
/// journal's number, or nothing where `file` is no such name.
///
/// `file` is a file's name, without the directories that lead to it. The
/// name ends in `.dat`; the number stands between that and the last hyphen,
/// in decimal digits, and `-journal` before that hyphen. What is left is the
/// log's name, which may hold hyphens itself.
pub fn unwrap_filename(file: String) -> (parts: Option<(String, usize)>)
    ensures
        match parts {
            Some((name, num)) => filename_parts(file@) == Some((name@, num)),
            None => filename_parts(file@) is None,
        },
{
    let chars = to_chars(file.as_str());
    let n = chars.len();
    let ext: Vec<char> = vec!['d', 'a', 't'];
    let word: Vec<char> = vec!['j', 'o', 'u', 'r', 'n', 'a', 'l'];
    proof {
        assert(ext@ =~= seq!['d', 'a', 't']);
        assert(word@ =~= seq!['j', 'o', 'u', 'r', 'n', 'a', 'l']);
        assert(chars@.take(n as int) =~= chars@);
    }
    let dot = match find_last(&chars, n, '.') {
        Some(dot) => dot,
        None => {
            return None;
        },
    };
    proof {
        assert(chars@.skip(dot + 1) =~= chars@.subrange(dot + 1, n as int));
    }
    if !slice_is(&chars, dot + 1, n, &ext) {
        return None;
    }
    let ghost stem = chars@.take(dot as int);
    let dash = match find_last(&chars, dot, '-') {
        Some(dash) => dash,
        None => {
            return None;
        },
    };
    let ghost head = stem.take(dash as int);
    proof {
        assert(head =~= chars@.take(dash as int));
    }
    let mark = match find_last(&chars, dash, '-') {
        Some(mark) => mark,
        None => {
            return None;
        },
    };
    proof {
        assert(head.skip(mark + 1) =~= chars@.subrange(mark + 1, dash as int));
    }
    if !slice_is(&chars, mark + 1, dash, &word) {
        return None;
    }
    let mut digits: Vec<char> = Vec::new();
    let mut i = dash + 1;
    while i < dot
        invariant
            dash + 1 <= i <= dot <= chars.len(),
            digits@ == chars@.subrange(dash + 1, i as int),
        decreases dot - i,
    {
        digits.push(chars[i]);
        proof {
            assert(digits@ =~= chars@.subrange(dash + 1, i + 1));
        }
        i = i + 1;
    }
    proof {
        assert(digits@ =~= stem.skip(dash + 1));
        assert(digits@.skip(0) =~= digits@);
    }
    let from: usize = if digits.len() > 0 && digits[0] == '+' {
        1
    } else {
        0
    };
    let num = match parse_digits(&digits, from) {
        Some(num) => num,
        None => {
            return None;
        },
    };
    let name = String::from_str(file.as_str().substring_char(0, mark));
    proof {
        assert(name@ =~= head.take(mark as int));
    }
    Some((name, num))
}

/// The name of the file that holds the journal after the one that the file
/// named `file` holds: the same log's name, and the next number, or the
/// same number where there is no greater one. There is none where `file`
/// is not the name of a journal file.
pub fn next_filename(file: String) -> (next: Option<String>)
    ensures
        match next {
            Some(next) => filename_parts(file@) matches Some((name, num)) && next@ == filename_of(
                name,
                if num < usize::MAX {
                    (num + 1) as nat
                } else {
                    num as nat
                },
            ),
            None => filename_parts(file@) is None,
        },
{
    match unwrap_filename(file) {
        Some((name, num)) => {
            let num = if num < usize::MAX {
                num + 1
            } else {
                num
            };
            Some(make_filename(name, num))
        },
        None => None,
    }
}

/// Whether every character of `text` is a decimal digit.
pub open spec fn all_digits(text: Seq<char>) -> bool {
    forall|i: int| 0 <= i < text.len() ==> '0' <= #[trigger] text[i] <= '9'
}

/// The decimal digits of a number are digits, and stand for that number.
pub proof fn lemma_decimal_value_of_decimal(n: nat)
    ensures
        decimal(n).len() >= 1,
        all_digits(decimal(n)),
        decimal_value(decimal(n)) == Some(n),
    decreases n,
{
    if n >= 10 {
        lemma_decimal_value_of_decimal(n / 10);
        let digits = decimal(n);
        assert(digits.drop_last() =~= decimal(n / 10));
        assert(digits.last() == digit_char(n % 10));
    }
}

/// Zeros before decimal digits change nothing in the number that they
/// stand for.
pub proof fn lemma_decimal_value_of_zero_padded(digits: Seq<char>, width: nat)
    requires
        digits.len() >= 1,
        all_digits(digits),
    ensures
        zero_padded(digits, width).len() >= 1,
        all_digits(zero_padded(digits, width)),
        decimal_value(zero_padded(digits, width)) == decimal_value(digits),
    decreases width - digits.len(),
{
    if digits.len() < width {
        let longer = seq!['0'] + digits;
        lemma_decimal_value_after_zero(digits);
        lemma_decimal_value_of_zero_padded(longer, width);
    }
}

/// One zero before decimal digits changes nothing in the number that they
/// stand for.
pub proof fn lemma_decimal_value_after_zero(digits: Seq<char>)
    requires
        digits.len() >= 1,
        all_digits(digits),
    ensures
        all_digits(seq!['0'] + digits),
        decimal_value(seq!['0'] + digits) == decimal_value(digits),
    decreases digits.len(),
{
    let longer = seq!['0'] + digits;
    assert(longer.last() == digits.last());
    assert(longer.drop_last() =~= seq!['0'] + digits.drop_last());
    if digits.len() == 1 {
        assert(longer.drop_last() =~= seq!['0']);
        assert(decimal_value(seq!['0']) == Some(0nat));
    } else {
        lemma_decimal_value_after_zero(digits.drop_last());
    }
}

/// Where `c` stands at `place` in `text` and nowhere after it, `place` is
/// the place of the last `c`.
pub proof fn lemma_last_index_is(text: Seq<char>, c: char, place: int)
    requires
        0 <= place < text.len(),
        text[place] == c,
        forall|j: int| place < j < text.len() ==> text[j] != c,
    ensures
        last_index(text, c) == place,
    decreases text.len(),
{
    if place < text.len() - 1 {
        lemma_last_index_is(text.drop_last(), c, place);
    }
}

/// Taking apart the name made for a log and a journal's number gives that
/// log's name and that number, whatever the name holds.
pub proof fn lemma_unwrap_of_make(name: Seq<char>, num: usize)
    ensures
        filename_parts(filename_of(name, num as nat)) == Some((name, num)),
{
    let pad = zero_padded(decimal(num as nat), 3);
    lemma_decimal_value_of_decimal(num as nat);
    lemma_decimal_value_of_zero_padded(decimal(num as nat), 3);
    let file = filename_of(name, num as nat);
    let a = name.len() as int;
    let p = pad.len() as int;
    let dot = a + 9 + p;
    assert(file.len() == dot + 4);
    assert(file[dot] == '.');
    assert forall|j: int| dot < j < file.len() implies file[j] != '.' by {
        assert(file[j] == suffix()[j - dot]);
    }
    lemma_last_index_is(file, '.', dot);
    assert(file.skip(dot + 1) =~= seq!['d', 'a', 't']);
    let stem = file.take(dot);
    assert(stem =~= name + infix() + pad);
    let dash = a + 8;
    assert(stem[dash] == '-');
    assert forall|j: int| dash < j < stem.len() implies stem[j] != '-' by {
        assert(stem[j] == pad[j - a - 9]);
    }
    lemma_last_index_is(stem, '-', dash);
    let head = stem.take(dash);
    assert(head =~= name + seq!['-', 'j', 'o', 'u', 'r', 'n', 'a', 'l']);
    assert(head[a] == '-');
    assert forall|j: int| a < j < head.len() implies head[j] != '-' by {
        assert(head[j] == infix()[j - a]);
    }
    lemma_last_index_is(head, '-', a);
    assert(head.skip(a + 1) =~= seq!['j', 'o', 'u', 'r', 'n', 'a', 'l']);
    assert(head.take(a) =~= name);
    assert(stem.skip(dash + 1) =~= pad);
    assert(pad[0] != '+');
}

} // verus!
