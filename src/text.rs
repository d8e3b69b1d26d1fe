use crate::fault::Fault;
use vstd::prelude::*;
use vstd::string::StrSliceExecFns;

verus! {

pub open spec fn is_space(c: char) -> bool {
    c == ' ' || c == '\n' || c == '\t' || c == '\r'
}

/// The first index at or after `i` that does not hold whitespace.
pub open spec fn skip_space(s: Seq<char>, i: int) -> int
    decreases s.len() - i,
{
    if 0 <= i < s.len() && is_space(s[i]) {
        skip_space(s, i + 1)
    } else {
        i
    }
}

/// The first index at or after `i` that holds whitespace, or the end.
pub open spec fn word_end(s: Seq<char>, i: int) -> int
    decreases s.len() - i,
{
    if 0 <= i < s.len() && !is_space(s[i]) {
        word_end(s, i + 1)
    } else {
        i
    }
}

/// Where the next whitespace-delimited token at or after `pos` begins and ends.
pub open spec fn next_token_spec(s: Seq<char>, pos: int) -> Option<(int, int)> {
    let a = skip_space(s, pos);
    if a < s.len() {
        Some((a, word_end(s, a)))
    } else {
        None
    }
}

pub open spec fn is_digit(c: char) -> bool {
    '0' <= c <= '9'
}

pub open spec fn digit_value(c: char) -> int {
    c as int - '0' as int
}

/// The number a string of decimal digits denotes.
pub open spec fn digits_value(s: Seq<char>) -> int
    decreases s.len(),
{
    if s.len() == 0 {
        0
    } else {
        10 * digits_value(s.drop_last()) + digit_value(s.last())
    }
}

pub open spec fn all_digits(s: Seq<char>) -> bool {
    forall|i: int| 0 <= i < s.len() ==> is_digit(#[trigger] s[i])
}

/// A base-10 signed 64-bit integer with an optional sign, as Rust writes it.
pub open spec fn parse_int_spec(s: Seq<char>) -> Option<i64> {
    let neg = s.len() > 0 && s[0] == '-';
    let signed = s.len() > 0 && (s[0] == '-' || s[0] == '+');
    let body = if signed {
        s.drop_first()
    } else {
        s
    };
    let v = if neg {
        -digits_value(body)
    } else {
        digits_value(body)
    };
    if body.len() > 0 && all_digits(body) && i64::MIN <= v <= i64::MAX {
        Some(v as i64)
    } else {
        None
    }
}

/// What reading a token yields: its value, or a fault when it is no integer.
pub open spec fn token_value(s: Seq<char>) -> Result<i64, Fault> {
    match parse_int_spec(s) {
        Some(v) => Ok(v),
        None => Err(Fault::MalformedInput),
    }
}

proof fn lemma_digits_value_step(s: Seq<char>, k: int)
    requires
        0 <= k < s.len(),
    ensures
        digits_value(s.subrange(0, k + 1)) == 10 * digits_value(s.subrange(0, k)) + digit_value(
            s[k],
        ),
{
    assert(s.subrange(0, k + 1).drop_last() =~= s.subrange(0, k));
}

proof fn lemma_digits_value_grows(s: Seq<char>, k: int, j: int)
    requires
        0 <= k <= j <= s.len(),
        all_digits(s),
    ensures
        0 <= digits_value(s.subrange(0, k)) <= digits_value(s.subrange(0, j)),
    decreases j - k,
{
    if k < j {
        lemma_digits_value_grows(s, k, j - 1);
        lemma_digits_value_step(s, j - 1);
        assert(is_digit(s[j - 1]));
    } else {
        lemma_digits_value_nonneg(s.subrange(0, k));
    }
}

proof fn lemma_digits_value_nonneg(s: Seq<char>)
    requires
        all_digits(s),
    ensures
        digits_value(s) >= 0,
    decreases s.len(),
{
    if s.len() > 0 {
        assert(all_digits(s.drop_last())) by {
            assert forall|i: int| 0 <= i < s.drop_last().len() implies is_digit(
                #[trigger] s.drop_last()[i],
            ) by {
                assert(s.drop_last()[i] == s[i]);
            }
        }
        lemma_digits_value_nonneg(s.drop_last());
        assert(is_digit(s[s.len() - 1]));
    }
}

/// Parses `chars[start..end]` as a base-10 signed 64-bit integer.
pub fn parse_int(chars: &Vec<char>, start: usize, end: usize) -> (r: Option<i64>)
    requires
        start <= end <= chars.len(),
    ensures
        r == parse_int_spec(chars@.subrange(start as int, end as int)),
{
    let ghost s = chars@.subrange(start as int, end as int);
    let neg = start < end && chars[start] == '-';
    let signed = start < end && (chars[start] == '-' || chars[start] == '+');
    let first: usize = if signed {
        start + 1
    } else {
        start
    };
    let ghost body = chars@.subrange(first as int, end as int);
    assert(start < end ==> s[0] == chars@[start as int]);
    assert(body =~= (if signed {
        s.drop_first()
    } else {
        s
    }));
    if first == end {
        return None;
    }
    let limit: i128 = 0x8000_0000_0000_0000;
    let mut acc: i128 = 0;
    let mut i: usize = first;
    while i < end
        invariant
            first <= i <= end <= chars.len(),
            body == chars@.subrange(first as int, end as int),
            s == chars@.subrange(start as int, end as int),
            body == (if signed {
                s.drop_first()
            } else {
                s
            }),
            neg == (s.len() > 0 && s[0] == '-'),
            signed == (s.len() > 0 && (s[0] == '-' || s[0] == '+')),
            all_digits(body.subrange(0, i - first)),
            acc == digits_value(body.subrange(0, i - first)),
            0 <= acc <= limit,
            limit == 0x8000_0000_0000_0000,
        decreases end - i,
    {
        let c = chars[i];
        if !('0' <= c && c <= '9') {
            assert(body[i - first] == c);
            assert(!is_digit(body[i - first]));
            assert(!all_digits(body));
            return None;
        }
        proof {
            lemma_digits_value_step(body, i - first);
            assert(body.subrange(0, i - first + 1).drop_last() =~= body.subrange(0, i - first));
            assert forall|j: int| 0 <= j < i - first + 1 implies is_digit(
                #[trigger] body.subrange(0, i - first + 1)[j],
            ) by {
                if j < i - first {
                    assert(body.subrange(0, i - first + 1)[j] == body.subrange(0, i - first)[j]);
                }
            }
        }
        acc = 10 * acc + (c as u32 - '0' as u32) as i128;
        i = i + 1;
        if acc > limit {
            proof {
                if all_digits(body) {
                    lemma_digits_value_grows(body, i - first, body.len() as int);
                    assert(body.subrange(0, body.len() as int) =~= body);
                }
            }
            return None;
        }
    }
    assert(body.subrange(0, i - first) =~= body);
    if neg {
        Some((-acc) as i64)
    } else if acc < limit {
        Some(acc as i64)
    } else {
        None
    }
}

fn is_space_char(c: char) -> (r: bool)
    ensures
        r == is_space(c),
{
    c == ' ' || c == '\n' || c == '\t' || c == '\r'
}

/// A cursor over a text buffer that hands out one whitespace-delimited token at a time.
#[derive(Debug)]
pub struct TextCursor {
    text: Vec<char>,
    pos: usize,
}

impl TextCursor {
    /// The whole buffer.
    pub closed spec fn text(&self) -> Seq<char> {
        self.text@
    }

    /// Where the next read starts.
    pub closed spec fn position(&self) -> int {
        self.pos as int
    }

    pub closed spec fn wf(&self) -> bool {
        self.pos <= self.text.len()
    }

    /// A cursor at the start of `s`.
    pub fn new(s: &str) -> (r: TextCursor)
        ensures
            r.wf(),
            r.text() == s@,
            r.position() == 0,
    {
        let n = s.unicode_len();
        let mut text: Vec<char> = Vec::new();
        for i in 0..n
            invariant
                n == s@.len(),
                text@ == s@.take(i as int),
        {
            text.push(s.get_char(i));
            assert(text@ =~= s@.take(i + 1));
        }
        assert(text@ =~= s@);
        TextCursor { text, pos: 0 }
    }

    /// Reads the next token and its value; `None` once only whitespace remains.
    pub fn next_token(&mut self) -> (r: Option<Result<i64, Fault>>)
        requires
            old(self).wf(),
        ensures
            final(self).wf(),
            final(self).text() == old(self).text(),
            match next_token_spec(old(self).text(), old(self).position()) {
                None => r is None && final(self).position() == old(self).text().len(),
                Some((a, b)) => r == Some(token_value(old(self).text().subrange(a, b)))
                    && final(self).position() == b,
            },
    {
        let ghost s = self.text@;
        let n = self.text.len();
        let mut i = self.pos;
        while i < n && is_space_char(self.text[i])
            invariant
                self.pos <= i <= n,
                n == s.len(),
                s == self.text@,
                skip_space(s, self.pos as int) == skip_space(s, i as int),
            decreases n - i,
        {
            i = i + 1;
        }
        if i == n {
            self.pos = n;
            return None;
        }
        let mut j = i;
        while j < n && !is_space_char(self.text[j])
            invariant
                i <= j <= n,
                n == s.len(),
                s == self.text@,
                word_end(s, i as int) == word_end(s, j as int),
            decreases n - j,
        {
            j = j + 1;
        }
        let v = parse_int(&self.text, i, j);
        self.pos = j;
        match v {
            Some(x) => Some(Ok(x)),
            None => Some(Err(Fault::MalformedInput)),
        }
    }
}

/// Whitespace and commas separate the integers of a list.
pub open spec fn is_separator(c: char) -> bool {
    is_space(c) || c == ','
}

pub open spec fn skip_separators(s: Seq<char>, i: int) -> int
    decreases s.len() - i,
{
    if 0 <= i < s.len() && is_separator(s[i]) {
        skip_separators(s, i + 1)
    } else {
        i
    }
}

pub open spec fn item_end(s: Seq<char>, i: int) -> int
    decreases s.len() - i,
{
    if 0 <= i < s.len() && !is_separator(s[i]) {
        item_end(s, i + 1)
    } else {
        i
    }
}

/// The items of `s` from `i` on: maximal runs of characters that are neither
/// whitespace nor commas.
pub open spec fn items_from(s: Seq<char>, i: int) -> Seq<Seq<char>>
    decreases s.len() + 1 - i,
{
    let a = skip_separators(s, i);
    if 0 <= i && i <= a < s.len() {
        let b = item_end(s, a);
        if a < b <= s.len() {
            seq![s.subrange(a, b)] + items_from(s, b)
        } else {
            Seq::empty()
        }
    } else {
        Seq::empty()
    }
}

proof fn lemma_item_end(s: Seq<char>, i: int)
    requires
        0 <= i < s.len(),
        !is_separator(s[i]),
    ensures
        i < item_end(s, i) <= s.len(),
    decreases s.len() - i,
{
    if i + 1 < s.len() && !is_separator(s[i + 1]) {
        lemma_item_end(s, i + 1);
    } else {
        assert(item_end(s, i + 1) == i + 1);
    }
}

/// The integers of a list such as a program image: items separated by commas
/// and whitespace, each a base-10 signed 64-bit integer.
pub fn integers(text: &Vec<char>) -> (r: Result<Vec<i64>, Fault>)
    ensures
        match r {
            Ok(v) => v.len() == items_from(text@, 0).len() && forall|k: int|
                0 <= k < v.len() ==> parse_int_spec(#[trigger] items_from(text@, 0)[k]) == Some(
                    v@[k],
                ),
            Err(f) => f == Fault::MalformedInput && exists|k: int|
                0 <= k < items_from(text@, 0).len() && #[trigger] parse_int_spec(
                    items_from(text@, 0)[k],
                ) is None,
        },
{
    let ghost s = text@;
    let n = text.len();
    let mut out: Vec<i64> = Vec::new();
    let mut i: usize = 0;
    let ghost mut done: Seq<Seq<char>> = Seq::empty();
    assert(items_from(s, 0) =~= done + items_from(s, 0));
    loop
        invariant
            s == text@,
            n == s.len(),
            i <= n,
            items_from(s, 0) == done + items_from(s, i as int),
            out.len() == done.len(),
            forall|k: int| 0 <= k < done.len() ==> parse_int_spec(#[trigger] done[k]) == Some(out@[k]),
        decreases n - i,
    {
        let mut a = i;
        while a < n && (is_space_char(text[a]) || text[a] == ',')
            invariant
                i <= a <= n,
                n == s.len(),
                s == text@,
                skip_separators(s, i as int) == skip_separators(s, a as int),
            decreases n - a,
        {
            a = a + 1;
        }
        if a == n {
            assert(items_from(s, i as int) =~= Seq::<Seq<char>>::empty());
            assert(done + Seq::<Seq<char>>::empty() =~= done);
            return Ok(out);
        }
        let mut b = a;
        while b < n && !(is_space_char(text[b]) || text[b] == ',')
            invariant
                a <= b <= n,
                n == s.len(),
                s == text@,
                item_end(s, a as int) == item_end(s, b as int),
            decreases n - b,
        {
            b = b + 1;
        }
        proof {
            lemma_item_end(s, a as int);
        }
        let ghost item = s.subrange(a as int, b as int);
        assert(items_from(s, i as int) == seq![item] + items_from(s, b as int));
        assert(done + (seq![item] + items_from(s, b as int)) =~= done.push(item) + items_from(s, b as int));
        match parse_int(text, a, b) {
            Some(v) => {
                out.push(v);
                proof {
                    assert forall|k: int| 0 <= k < done.len() + 1 implies parse_int_spec(
                        #[trigger] done.push(item)[k],
                    ) == Some(out@[k]) by {}
                    done = done.push(item);
                }
            },
            None => {
                assert((done.push(item) + items_from(s, b as int))[done.len() as int] == item);
                return Err(Fault::MalformedInput);
            },
        }
        i = b;
    }
}

/// Where each item of `text` begins and ends.
pub fn item_bounds(text: &Vec<char>) -> (r: Vec<(usize, usize)>)
    ensures
        r.len() == items_from(text@, 0).len(),
        forall|k: int|
            0 <= k < r.len() ==> (#[trigger] r@[k]).0 < r@[k].1 <= text.len() && text@.subrange(
                r@[k].0 as int,
                r@[k].1 as int,
            ) == items_from(text@, 0)[k],
{
    let ghost s = text@;
    let n = text.len();
    let mut out: Vec<(usize, usize)> = Vec::new();
    let mut i: usize = 0;
    let ghost mut done: Seq<Seq<char>> = Seq::empty();
    assert(items_from(s, 0) =~= done + items_from(s, 0));
    loop
        invariant
            s == text@,
            n == s.len(),
            i <= n,
            items_from(s, 0) == done + items_from(s, i as int),
            out.len() == done.len(),
            forall|k: int|
                0 <= k < done.len() ==> (#[trigger] out@[k]).0 < out@[k].1 <= n && s.subrange(
                    out@[k].0 as int,
                    out@[k].1 as int,
                ) == done[k],
        decreases n - i,
    {
        let mut a = i;
        while a < n && (is_space_char(text[a]) || text[a] == ',')
            invariant
                i <= a <= n,
                n == s.len(),
                s == text@,
                skip_separators(s, i as int) == skip_separators(s, a as int),
            decreases n - a,
        {
            a = a + 1;
        }
        if a == n {
            assert(items_from(s, i as int) =~= Seq::<Seq<char>>::empty());
            assert(done + Seq::<Seq<char>>::empty() =~= done);
            return out;
        }
        let mut b = a;
        while b < n && !(is_space_char(text[b]) || text[b] == ',')
            invariant
                a <= b <= n,
                n == s.len(),
                s == text@,
                item_end(s, a as int) == item_end(s, b as int),
            decreases n - b,
        {
            b = b + 1;
        }
        proof {
            lemma_item_end(s, a as int);
        }
        let ghost item = s.subrange(a as int, b as int);
        assert(items_from(s, i as int) == seq![item] + items_from(s, b as int));
        assert(done + (seq![item] + items_from(s, b as int)) =~= done.push(item) + items_from(s, b as int));
        out.push((a, b));
        proof {
            assert forall|k: int| 0 <= k < done.len() + 1 implies (#[trigger] out@[k]).0 < out@[k].1
                <= n && s.subrange(out@[k].0 as int, out@[k].1 as int) == done.push(item)[k] by {}
            done = done.push(item);
        }
        i = b;
    }
}

} // verus!
