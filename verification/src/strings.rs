//! Functions on texts, stated over their characters: comparison, prefixes,
//! cutting at a delimiter, white space and lines.
//!
//! They work on the UTF-8 bytes wherever what they look for is a character
//! below 128 or a whole text, and the theory of UTF-8 carries the result over
//! to the characters.

use vstd::prelude::*;
use vstd::string::*;
use vstd::utf8::*;

verus! {

/// The texts of a list of strings.
pub open spec fn texts(v: Seq<String>) -> Seq<Seq<char>> {
    v.map_values(|s: String| s@)
}

/// The text of an optional string slice.
pub open spec fn opt_str_text(o: Option<&str>) -> Option<Seq<char>> {
    match o {
        Some(s) => Some(s@),
        None => None,
    }
}

/// Whether a character is white space, as Unicode defines it.
pub open spec fn whitespace(c: char) -> bool {
    let v = c as u32;
    ||| 0x09 <= v <= 0x0D
    ||| v == 0x20
    ||| v == 0x85
    ||| v == 0xA0
    ||| v == 0x1680
    ||| 0x2000 <= v <= 0x200A
    ||| v == 0x2028
    ||| v == 0x2029
    ||| v == 0x202F
    ||| v == 0x205F
    ||| v == 0x3000
}

/// Whether a character is white space.
pub fn is_whitespace(c: char) -> (r: bool)
    ensures
        r == whitespace(c),
{
    let v = c as u32;
    (0x09 <= v && v <= 0x0D) || v == 0x20 || v == 0x85 || v == 0xA0 || v == 0x1680 || (0x2000 <= v
        && v <= 0x200A) || v == 0x2028 || v == 0x2029 || v == 0x202F || v == 0x205F || v == 0x3000
}

/// How many characters of white space a text begins with.
pub open spec fn leading_whitespace(text: Seq<char>) -> nat
    decreases text.len(),
{
    if text.len() > 0 && whitespace(text[0]) {
        1 + leading_whitespace(text.drop_first())
    } else {
        0
    }
}

/// The index behind the last character of a text that is no white space, or 0
/// where there is none.
pub open spec fn content_end(text: Seq<char>) -> nat
    decreases text.len(),
{
    if text.len() == 0 {
        0
    } else if whitespace(text.last()) {
        content_end(text.drop_last())
    } else {
        text.len()
    }
}

/// A text without the white space at its beginning and at its end.
pub open spec fn trimmed_of(text: Seq<char>) -> Seq<char> {
    let start = leading_whitespace(text) as int;
    let end = content_end(text) as int;
    if start < end {
        text.subrange(start, end)
    } else {
        Seq::empty()
    }
}

/// A text begins with at most as much white space as it is long; with one more
/// character at its end it begins with as much as before, or with one more
/// where it was all white space and the character is white space too.
pub proof fn lemma_leading_whitespace(text: Seq<char>, c: char)
    ensures
        leading_whitespace(text) <= text.len(),
        leading_whitespace(text) == text.len() && whitespace(c) ==> leading_whitespace(text.push(c))
            == text.len() + 1,
        !(leading_whitespace(text) == text.len() && whitespace(c)) ==> leading_whitespace(
            text.push(c),
        ) == leading_whitespace(text),
    decreases text.len(),
{
    let more = text.push(c);
    if text.len() > 0 {
        let rest = text.drop_first();
        lemma_leading_whitespace(rest, c);
        assert(more.drop_first() =~= rest.push(c));
        assert(more[0] == text[0]);
        if whitespace(text[0]) {
            assert(leading_whitespace(text) == 1 + leading_whitespace(rest));
            assert(leading_whitespace(more) == 1 + leading_whitespace(rest.push(c)));
        } else {
            assert(leading_whitespace(text) == 0);
            assert(leading_whitespace(more) == 0);
        }
    } else {
        assert(more.drop_first() =~= Seq::<char>::empty());
        assert(more[0] == c);
        assert(leading_whitespace(more.drop_first()) == 0);
        assert(leading_whitespace(text) == 0);
    }
}

/// Removes the white space at the beginning and at the end of a text.
pub fn trim(text: &str) -> (r: &str)
    ensures
        r@ == trimmed_of(text@),
{
    let len = text.unicode_len();
    let mut start: usize = 0;
    let mut end: usize = 0;
    let mut i: usize = 0;
    assert(text@.take(0) =~= Seq::<char>::empty());
    for c in it: text.chars()
        invariant
            it.seq() == text@,
            i == it.index(),
            len == text@.len(),
            start == leading_whitespace(text@.take(i as int)),
            end == content_end(text@.take(i as int)),
            start <= i,
            end <= i,
    {
        proof {
            assert(text@.take(i + 1) =~= text@.take(i as int).push(c));
            assert(text@.take(i + 1).drop_last() =~= text@.take(i as int));
            lemma_leading_whitespace(text@.take(i as int), c);
        }
        if is_whitespace(c) {
            if start == i {
                start = i + 1;
            }
        } else {
            end = i + 1;
        }
        i += 1;
    }
    assert(text@.take(i as int) =~= text@);
    if start < end {
        text.substring_char(start, end)
    } else {
        let r = text.substring_char(0, 0);
        assert(r@ =~= Seq::<char>::empty());
        r
    }
}

/// The pieces of a text read so far and the piece being read: white space ends
/// a piece, any other character goes on with one or begins one.
pub open spec fn pieces_and_rest(text: Seq<char>) -> (Seq<Seq<char>>, Seq<char>)
    decreases text.len(),
{
    if text.len() == 0 {
        (Seq::empty(), Seq::empty())
    } else {
        let (done, piece) = pieces_and_rest(text.drop_last());
        if !whitespace(text.last()) {
            (done, piece.push(text.last()))
        } else if piece.len() > 0 {
            (done.push(piece), Seq::empty())
        } else {
            (done, piece)
        }
    }
}

/// The pieces of a text between white space: the longest runs of characters
/// that are no white space, in order.
pub open spec fn whitespace_split_of(text: Seq<char>) -> Seq<Seq<char>> {
    let (done, piece) = pieces_and_rest(text);
    if piece.len() > 0 {
        done.push(piece)
    } else {
        done
    }
}

/// Cuts a text into its pieces between white space.
pub fn split_whitespace(text: &str) -> (r: Vec<String>)
    ensures
        texts(r@) == whitespace_split_of(text@),
{
    let len = text.unicode_len();
    let mut out: Vec<String> = Vec::new();
    let mut from: usize = 0;
    let mut i: usize = 0;
    assert(text@.take(0) =~= Seq::<char>::empty());
    assert(texts(out@) =~= Seq::<Seq<char>>::empty());
    assert(text@.subrange(0, 0) =~= Seq::<char>::empty());
    for c in it: text.chars()
        invariant
            it.seq() == text@,
            i == it.index(),
            len == text@.len(),
            from <= i,
            pieces_and_rest(text@.take(i as int)) == (texts(out@), text@.subrange(from as int, i as int)),
    {
        proof {
            assert(text@.take(i + 1).drop_last() =~= text@.take(i as int));
            assert(text@.take(i + 1).last() == c);
        }
        if is_whitespace(c) {
            if from < i {
                let ghost before = out@;
                out.push(String::from_str(text.substring_char(from, i)));
                assert(texts(out@) =~= texts(before).push(text@.subrange(from as int, i as int)));
            }
            from = i + 1;
            assert(text@.subrange(from as int, i + 1) =~= Seq::<char>::empty());
        } else {
            assert(text@.subrange(from as int, i + 1) =~= text@.subrange(from as int, i as int).push(c));
        }
        i += 1;
    }
    assert(text@.take(i as int) =~= text@);
    if from < i {
        let ghost before = out@;
        out.push(String::from_str(text.substring_char(from, i)));
        assert(texts(out@) =~= texts(before).push(text@.subrange(from as int, i as int)));
    }
    out
}

/// Whether a text is empty once trimmed.
pub open spec fn blank(text: Seq<char>) -> bool {
    trimmed_of(text).len() == 0
}

/// Whether a text is empty once trimmed.
pub fn is_blank(text: &str) -> (b: bool)
    ensures
        b == blank(text@),
{
    trim(text).is_empty()
}

/// A text is determined by its UTF-8 encoding.
pub proof fn lemma_same_bytes_same_text(a: Seq<char>, b: Seq<char>)
    requires
        encode_utf8(a) == encode_utf8(b),
    ensures
        a == b,
{
    encode_utf8_decode_utf8(a);
    encode_utf8_decode_utf8(b);
}

/// Whether two byte slices hold the same bytes.
pub fn bytes_eq(a: &[u8], b: &[u8]) -> (r: bool)
    ensures
        r == (a@ == b@),
{
    if a.len() != b.len() {
        return false;
    }
    let mut i: usize = 0;
    while i < a.len()
        invariant
            a@.len() == b@.len(),
            i <= a@.len(),
            forall|j: int| 0 <= j < i ==> a@[j] == b@[j],
        decreases a@.len() - i,
    {
        if a[i] != b[i] {
            return false;
        }
        i += 1;
    }
    assert(a@ =~= b@);
    true
}

/// Whether two strings hold the same characters.
pub fn str_eq(a: &str, b: &str) -> (r: bool)
    ensures
        r == (a@ == b@),
{
    let r = bytes_eq(a.as_bytes(), b.as_bytes());
    proof {
        if r {
            lemma_same_bytes_same_text(a@, b@);
        }
    }
    r
}

/// The encoding of two texts one after the other is the encoding of the first
/// followed by that of the second.
pub proof fn lemma_encode_concat(a: Seq<char>, b: Seq<char>)
    ensures
        encode_utf8(a + b) == encode_utf8(a) + encode_utf8(b),
    decreases a.len(),
{
    if a.len() == 0 {
        assert(a + b =~= b);
        assert(encode_utf8(a) + encode_utf8(b) =~= encode_utf8(b));
    } else {
        lemma_encode_concat(a.drop_first(), b);
        assert((a + b).drop_first() =~= a.drop_first() + b);
        assert((a + b)[0] == a[0]);
        assert(encode_utf8(a + b) =~= encode_utf8(a) + encode_utf8(b));
    }
}

/// Where one encoding begins another, it ends between two characters of the
/// other.
pub proof fn lemma_prefix_ends_at_boundary(head: Seq<u8>, bytes: Seq<u8>)
    requires
        valid_utf8(head),
        valid_utf8(bytes),
        head.is_prefix_of(bytes),
    ensures
        is_char_boundary(bytes, head.len() as int),
    decreases head.len(),
{
    if head.len() > 0 {
        assert(head[0] == bytes[0]);
        let width = length_of_first_scalar(head);
        assert(width == length_of_first_scalar(bytes));
        let rest_head = pop_first_scalar(head);
        let rest_bytes = pop_first_scalar(bytes);
        assert(rest_head.is_prefix_of(rest_bytes)) by {
            assert(rest_head =~= rest_bytes.subrange(0, rest_head.len() as int));
        }
        lemma_prefix_ends_at_boundary(rest_head, rest_bytes);
    }
}

/// One text begins another exactly when its encoding begins the encoding of
/// the other.
pub proof fn lemma_prefix_by_bytes(prefix: Seq<char>, text: Seq<char>)
    ensures
        prefix.is_prefix_of(text) <==> encode_utf8(prefix).is_prefix_of(encode_utf8(text)),
{
    let head = encode_utf8(prefix);
    let bytes = encode_utf8(text);
    encode_utf8_valid_utf8(prefix);
    encode_utf8_valid_utf8(text);
    encode_utf8_decode_utf8(prefix);
    encode_utf8_decode_utf8(text);
    if prefix.is_prefix_of(text) {
        let rest = text.skip(prefix.len() as int);
        assert(text =~= prefix + rest);
        lemma_encode_concat(prefix, rest);
        assert(head =~= bytes.subrange(0, head.len() as int));
    }
    if head.is_prefix_of(bytes) {
        lemma_prefix_ends_at_boundary(head, bytes);
        decode_utf8_split(bytes, head.len() as int);
        assert(bytes.subrange(0, head.len() as int) =~= head);
        let rest = decode_utf8(bytes.subrange(head.len() as int, bytes.len() as int));
        assert(text =~= prefix + rest);
        assert(prefix =~= text.subrange(0, prefix.len() as int));
    }
}

/// Whether the text begins with the prefix.
pub fn starts_with(text: &str, prefix: &str) -> (r: bool)
    ensures
        r == prefix@.is_prefix_of(text@),
{
    let bytes = text.as_bytes();
    let head = prefix.as_bytes();
    proof {
        lemma_prefix_by_bytes(prefix@, text@);
    }
    if head.len() > bytes.len() {
        return false;
    }
    let mut i: usize = 0;
    while i < head.len()
        invariant
            i <= head@.len() <= bytes@.len(),
            prefix@.is_prefix_of(text@) <==> head@.is_prefix_of(bytes@),
            forall|j: int| 0 <= j < i ==> head@[j] == bytes@[j],
        decreases head@.len() - i,
    {
        if head[i] != bytes[i] {
            assert(bytes@.subrange(0, head@.len() as int)[i as int] != head@[i as int]);
            return false;
        }
        i += 1;
    }
    assert(head@ =~= bytes@.subrange(0, head@.len() as int));
    true
}

/// A character below 128 is encoded as the one byte of its number.
pub proof fn lemma_ascii_encoding(c: char)
    requires
        (c as u32) < 128,
    ensures
        encode_utf8(seq![c]) == seq![(c as u32) as u8],
{
    let v = c as u32;
    assert(v & 0x7F == v) by (bit_vector)
        requires
            v < 128,
    ;
    let one = seq![c];
    assert(one.len() == 1 && one[0] == c);
    assert(one.drop_first() =~= Seq::<char>::empty());
    assert(encode_utf8(one.drop_first()) =~= Seq::<u8>::empty());
    assert(has_width_1_encoding(v));
    assert(encode_scalar(v) =~= seq![v as u8]);
    assert(encode_utf8(one) =~= encode_scalar(v) + encode_utf8(one.drop_first()));
    assert(encode_utf8(one) =~= seq![(c as u32) as u8]);
}

/// The encoding of a text that holds a character below 128 holds the byte of
/// its number.
pub proof fn lemma_ascii_char_has_byte(text: Seq<char>, c: char)
    requires
        (c as u32) < 128,
        text.contains(c),
    ensures
        encode_utf8(text).contains((c as u32) as u8),
{
    let k = choose|k: int| 0 <= k < text.len() && text[k] == c;
    let before = text.take(k);
    let after = text.skip(k + 1);
    assert(text =~= before + seq![c] + after);
    lemma_encode_concat(before + seq![c], after);
    lemma_encode_concat(before, seq![c]);
    lemma_ascii_encoding(c);
    let at = encode_utf8(before).len() as int;
    assert(encode_utf8(text)[at] == (c as u32) as u8);
}

/// Cuts a text at the first occurrence of a delimiter below 128, which belongs
/// to neither part; there is no result exactly when the delimiter does not
/// occur.
pub fn split_once(text: &str, delimiter: char) -> (r: Option<(&str, &str)>)
    requires
        (delimiter as u32) < 128,
    ensures
        match r {
            Some((before, after)) => text@ == before@.push(delimiter) + after@ && !before@.contains(
                delimiter,
            ),
            None => !text@.contains(delimiter),
        },
{
    let bytes = text.as_bytes();
    let d = delimiter as u8;
    let mut i: usize = 0;
    while i < bytes.len() && bytes[i] != d
        invariant
            i <= bytes@.len(),
            forall|j: int| 0 <= j < i ==> bytes@[j] != d,
        decreases bytes@.len() - i,
    {
        i += 1;
    }
    if i == bytes.len() {
        proof {
            if text@.contains(delimiter) {
                lemma_ascii_char_has_byte(text@, delimiter);
            }
        }
        return None;
    }
    let ghost all = bytes@;
    let ghost tail_bytes = all.subrange(i as int, all.len() as int);
    proof {
        encode_utf8_valid_utf8(text@);
        is_char_boundary_iff_not_is_continuation_byte(all, i as int);
        valid_utf8_split(all, i as int);
        assert(tail_bytes[0] == d);
        assert(valid_utf8(pop_first_scalar(tail_bytes)));
        assert(is_char_boundary(tail_bytes, 1)) by {
            reveal_with_fuel(is_char_boundary, 2);
        }
    }
    let (before, tail) = text.split_at(i);
    let (mark, after) = tail.split_at(1);
    proof {
        assert(all =~= before.spec_bytes() + mark.spec_bytes() + after.spec_bytes());
        lemma_encode_concat(before@ + mark@, after@);
        lemma_encode_concat(before@, mark@);
        lemma_same_bytes_same_text(text@, before@ + mark@ + after@);
        lemma_ascii_encoding(delimiter);
        assert(mark.spec_bytes() =~= seq![d]);
        lemma_same_bytes_same_text(mark@, seq![delimiter]);
        assert(before@ + mark@ =~= before@.push(delimiter));
        if before@.contains(delimiter) {
            lemma_ascii_char_has_byte(before@, delimiter);
            let j = choose|j: int| 0 <= j < before.spec_bytes().len() && before.spec_bytes()[j] == d;
            assert(all[j] == d);
        }
    }
    Some((before, after))
}

/// Where a character first occurs in a text, or the length of the text where
/// it does not occur.
pub open spec fn index_of_first(text: Seq<char>, c: char) -> int
    decreases text.len(),
{
    if text.len() == 0 {
        0
    } else if text[0] == c {
        0
    } else {
        1 + index_of_first(text.drop_first(), c)
    }
}

/// The first occurrence is an occurrence with none before it, and there is one
/// exactly when the character occurs at all.
pub proof fn lemma_index_of_first(text: Seq<char>, c: char)
    ensures
        0 <= index_of_first(text, c) <= text.len(),
        index_of_first(text, c) < text.len() <==> text.contains(c),
        index_of_first(text, c) < text.len() ==> text[index_of_first(text, c)] == c,
        forall|j: int| 0 <= j < index_of_first(text, c) ==> text[j] != c,
    decreases text.len(),
{
    if text.len() > 0 {
        let rest = text.drop_first();
        lemma_index_of_first(rest, c);
        if text[0] != c {
            assert forall|j: int| 0 <= j < index_of_first(text, c) implies text[j] != c by {
                if j > 0 {
                    assert(rest[j - 1] == text[j]);
                }
            }
            if text.contains(c) {
                let k = choose|k: int| 0 <= k < text.len() && text[k] == c;
                assert(rest[k - 1] == c);
            }
            if rest.contains(c) {
                let k = choose|k: int| 0 <= k < rest.len() && rest[k] == c;
                assert(text[k + 1] == c);
            }
        } else {
            assert(text.contains(c));
        }
    }
}

/// The parts around the first occurrence of a character are the text before
/// that index and the text after it.
pub proof fn lemma_split_at_first(text: Seq<char>, before: Seq<char>, after: Seq<char>, c: char)
    requires
        text == before.push(c) + after,
        !before.contains(c),
    ensures
        index_of_first(text, c) == before.len(),
        before == text.take(index_of_first(text, c)),
        after == text.skip(index_of_first(text, c) + 1),
{
    let n = before.len() as int;
    lemma_index_of_first(text, c);
    let at = index_of_first(text, c);
    assert(text[n] == c);
    if at < n {
        assert(before[at] == text[at]);
        assert(before.contains(c));
    }
    assert(text.take(n) =~= before);
    assert(text.skip(n + 1) =~= after);
}

/// A text ends with a character below 128 exactly when its encoding ends with
/// the byte of that character.
pub proof fn lemma_last_ascii(text: Seq<char>, c: char)
    requires
        (c as u32) < 128,
    ensures
        (text.len() > 0 && text.last() == c) <==> (encode_utf8(text).len() > 0 && encode_utf8(
            text,
        ).last() == (c as u32) as u8),
        text.len() > 0 && text.last() == c ==> encode_utf8(text.drop_last()) == encode_utf8(
            text,
        ).drop_last(),
{
    let bytes = encode_utf8(text);
    let d = (c as u32) as u8;
    lemma_ascii_encoding(c);
    encode_utf8_valid_utf8(text);
    encode_utf8_decode_utf8(text);
    if text.len() > 0 && text.last() == c {
        assert(text =~= text.drop_last() + seq![c]);
        lemma_encode_concat(text.drop_last(), seq![c]);
        assert(bytes.drop_last() =~= encode_utf8(text.drop_last()));
    }
    if bytes.len() > 0 && bytes.last() == d {
        let at = bytes.len() - 1;
        is_char_boundary_iff_not_is_continuation_byte(bytes, at);
        decode_utf8_split(bytes, at);
        assert(bytes.subrange(at, bytes.len() as int) =~= seq![d]);
        encode_utf8_decode_utf8(seq![c]);
        let init = decode_utf8(bytes.subrange(0, at));
        assert(text =~= init + seq![c]);
        assert(text.last() == c);
    }
}

/// A line without the carriage return at its end, if it has one.
pub open spec fn without_return(line: Seq<char>) -> Seq<char> {
    if line.len() > 0 && line.last() == '\r' {
        line.drop_last()
    } else {
        line
    }
}

/// The lines of a text. A line ends at a line feed, or at the end of the text;
/// the line feed, and a carriage return right before it, do not belong to the
/// line. Nothing follows a line feed at the end of the text.
pub open spec fn lines_of(text: Seq<char>) -> Seq<Seq<char>>
    decreases text.len(),
{
    if text.len() == 0 {
        Seq::empty()
    } else {
        let at = index_of_first(text, '\n');
        if 0 <= at < text.len() {
            seq![without_return(text.take(at))] + lines_of(text.skip(at + 1))
        } else {
            seq![text]
        }
    }
}

/// Removes the carriage return at the end of a line, if it has one.
pub fn strip_return(line: &str) -> (r: &str)
    ensures
        r@ == without_return(line@),
{
    let bytes = line.as_bytes();
    let n = bytes.len();
    proof {
        lemma_last_ascii(line@, '\r');
    }
    if n > 0 && bytes[n - 1] == 13u8 {
        proof {
            encode_utf8_valid_utf8(line@);
            is_char_boundary_iff_not_is_continuation_byte(bytes@, n - 1);
        }
        let (init, _) = line.split_at(n - 1);
        proof {
            assert(init.spec_bytes() =~= bytes@.drop_last());
            lemma_same_bytes_same_text(init@, line@.drop_last());
        }
        init
    } else {
        line
    }
}

/// Cuts a text into its lines.
pub fn lines(text: &str) -> (r: Vec<String>)
    ensures
        texts(r@) == lines_of(text@),
{
    let mut out: Vec<String> = Vec::new();
    let mut rest = text;
    assert(texts(out@) =~= Seq::<Seq<char>>::empty());
    while !rest.is_empty()
        invariant
            lines_of(text@) == texts(out@) + lines_of(rest@),
        decreases rest@.len(),
    {
        let ghost before_out = out@;
        match split_once(rest, '\n') {
            Some((line, after)) => {
                proof {
                    lemma_split_at_first(rest@, line@, after@, '\n');
                }
                let kept = strip_return(line);
                out.push(String::from_str(kept));
                proof {
                    assert(texts(out@) =~= texts(before_out).push(kept@));
                    assert(texts(out@) + lines_of(after@) =~= texts(before_out) + (seq![kept@]
                        + lines_of(after@)));
                }
                rest = after;
            },
            None => {
                proof {
                    lemma_index_of_first(rest@, '\n');
                }
                out.push(String::from_str(rest));
                proof {
                    assert(texts(out@) =~= texts(before_out).push(rest@));
                    assert(texts(out@) =~= texts(before_out) + seq![rest@]);
                }
                rest = "";
                proof {
                    reveal_strlit("");
                }
            },
        }
    }
    assert(texts(out@) + lines_of(rest@) =~= texts(out@));
    out
}

} // verus!
