//! From the bytes of labels to the dotted, lower-case text of a name.

use vstd::prelude::*;
use vstd::string::StringExecFns;
use vstd::utf8::{decode_utf8, encode_utf8, is_ascii_chars, valid_utf8};
use crate::name::{first_dot, label_seqs, text_labels, DOT};

verus! {

/// The text that `String::from_utf8_lossy` makes of bytes that are no
/// UTF-8.
pub uninterp spec fn utf8_lossy(bytes: Seq<u8>) -> Seq<char>;

/// The text that `str::to_lowercase` makes of a text with characters
/// outside ASCII.
pub uninterp spec fn lowercase(text: Seq<char>) -> Seq<char>;

/// An ASCII letter in lower case; any other character as it is.
pub open spec fn lower(c: char) -> char {
    if 'A' <= c && c <= 'Z' {
        ((c as u8) + 32) as char
    } else {
        c
    }
}

/// A text with each ASCII letter in lower case.
pub open spec fn ascii_lowercase(text: Seq<char>) -> Seq<char> {
    Seq::new(text.len(), |i: int| lower(text[i]))
}

/// Bytes as text: UTF-8 is decoded; in bytes that are no UTF-8 each
/// malformed run is replaced, as `String::from_utf8_lossy` does it.
pub open spec fn lossy_text(bytes: Seq<u8>) -> Seq<char> {
    if valid_utf8(bytes) {
        decode_utf8(bytes)
    } else {
        utf8_lossy(bytes)
    }
}

/// A text in lower case: in an ASCII text the letters `A` to `Z` are
/// replaced; any other text is folded as `str::to_lowercase` does it.
pub open spec fn lowered(text: Seq<char>) -> Seq<char> {
    if is_ascii_chars(text) {
        ascii_lowercase(text)
    } else {
        lowercase(text)
    }
}

/// The text of one label: its bytes as text, in lower case.
pub open spec fn label_text(label: Seq<u8>) -> Seq<char> {
    lowered(lossy_text(label))
}

/// The text of a name: the texts of its labels with a dot between each two.
pub open spec fn name_text(labels: Seq<Seq<u8>>) -> Seq<char>
    decreases labels.len(),
{
    if labels.len() == 0 {
        Seq::empty()
    } else if labels.len() == 1 {
        label_text(labels[0])
    } else {
        name_text(labels.drop_last()) + seq!['.'] + label_text(labels.last())
    }
}

/// The text of a name as it reads once it was written and read again:
/// its labels that are not empty, each folded to lower case, with a dot
/// between each two.
pub open spec fn canonical_name(name: Seq<char>) -> Seq<char> {
    name_text(text_labels(encode_utf8(name)))
}

/// Calls `String::from_utf8_lossy` and takes the text out of the `Cow`
/// that it returns. Of bytes that are UTF-8 the call returns the text
/// that they encode; of other bytes a text that depends on the bytes
/// alone, which the contract names.
#[verifier::external_body]
fn string_from_utf8_lossy(bytes: &[u8]) -> (r: String)
    ensures
        valid_utf8(bytes@) ==> r@ == decode_utf8(bytes@),
        !valid_utf8(bytes@) ==> r@ == utf8_lossy(bytes@),
{
    String::from_utf8_lossy(bytes).into_owned()
}

/// Calls `str::to_lowercase`. In an ASCII text the call replaces the
/// letters `A` to `Z` by `a` to `z` and nothing else; of any other text
/// it returns a text that depends on the text alone, which the contract
/// names.
#[verifier::external_body]
fn string_to_lowercase(text: &str) -> (r: String)
    ensures
        is_ascii_chars(text@) ==> r@ == ascii_lowercase(text@),
        !is_ascii_chars(text@) ==> r@ == lowercase(text@),
{
    text.to_lowercase()
}

/// The text of the label that `bytes` hold.
pub fn label_string(bytes: &[u8]) -> (r: String)
    ensures
        r@ == label_text(bytes@),
{
    let raw: String = string_from_utf8_lossy(bytes);
    string_to_lowercase(raw.as_str())
}

/// Appends the text of one label to a name, behind a dot unless the label
/// is the first of its name.
pub fn append_label(name: &mut String, label: &str, first: bool)
    ensures
        first ==> final(name)@ == old(name)@ + label@,
        !first ==> final(name)@ == old(name)@ + seq!['.'] + label@,
{
    if !first {
        proof {
            reveal_strlit(".");
        }
        name.append(".");
        assert("."@ =~= seq!['.']);
    }
    name.append(label);
}

/// The text of the name that `labels` spell.
pub fn name_string(labels: &Vec<Vec<u8>>) -> (r: String)
    ensures
        r@ == name_text(label_seqs(labels@)),
{
    let ghost all = label_seqs(labels@);
    let mut name: String = String::new();
    let mut i: usize = 0;
    while i < labels.len()
        invariant
            i <= labels.len(),
            all == label_seqs(labels@),
            name@ == name_text(all.take(i as int)),
        decreases labels.len() - i,
    {
        let text: String = label_string(labels[i].as_slice());
        proof {
            let upto = all.take(i + 1);
            assert(upto.drop_last() =~= all.take(i as int));
            assert(upto.last() == labels@[i as int]@);
            if i == 0 {
                assert(name@ + text@ =~= text@);
            }
        }
        append_label(&mut name, text.as_str(), i == 0);
        i += 1;
    }
    assert(all.take(i as int) =~= all);
    name
}

/// Bytes that are all ASCII.
pub open spec fn is_ascii_bytes(bytes: Seq<u8>) -> bool {
    forall|i: int| 0 <= i < bytes.len() ==> #[trigger] bytes[i] < 128
}

/// ASCII bytes as text, byte by byte.
pub open spec fn ascii_text(bytes: Seq<u8>) -> Seq<char> {
    Seq::new(bytes.len(), |i: int| bytes[i] as char)
}

/// The labels with a dot between each two.
pub open spec fn dotted(labels: Seq<Seq<u8>>) -> Seq<u8>
    decreases labels.len(),
{
    if labels.len() == 0 {
        Seq::empty()
    } else if labels.len() == 1 {
        labels[0]
    } else {
        dotted(labels.drop_last()) + seq![DOT] + labels.last()
    }
}

/// A name in text without an empty label: every dot stands between two
/// characters that are no dots.
pub open spec fn well_dotted(name: Seq<char>) -> bool {
    forall|i: int|
        0 <= i < name.len() && #[trigger] name[i] == '.' ==> 0 < i < name.len() - 1 && name[i + 1]
            != '.'
}

/// The same of the bytes of a name.
pub open spec fn well_dotted_bytes(bytes: Seq<u8>) -> bool {
    forall|i: int|
        0 <= i < bytes.len() && #[trigger] bytes[i] == DOT ==> 0 < i < bytes.len() - 1 && bytes[i
            + 1] != DOT
}

/// ASCII bytes are UTF-8 and encode their own text.
pub proof fn lemma_ascii_bytes_decode(bytes: Seq<u8>)
    requires
        is_ascii_bytes(bytes),
    ensures
        valid_utf8(bytes),
        decode_utf8(bytes) == ascii_text(bytes),
        is_ascii_chars(ascii_text(bytes)),
{
    let text = ascii_text(bytes);
    assert forall|i: int| 0 <= i < text.len() implies '\0' <= #[trigger] text[i] <= '\u{7f}' by {
        assert(bytes[i] < 128);
    }
    vstd::utf8::is_ascii_chars_encode_utf8(text);
    assert(encode_utf8(text) =~= bytes) by {
        assert forall|i: int| 0 <= i < bytes.len() implies encode_utf8(text)[i] == bytes[i] by {
            assert(bytes[i] < 128);
            assert(text[i] as u8 == encode_utf8(text)[i]);
        }
    }
    vstd::utf8::encode_utf8_valid_utf8(text);
    vstd::utf8::encode_utf8_decode_utf8(text);
}

/// The text of an ASCII label: its bytes as characters, the letters in
/// lower case.
pub proof fn lemma_ascii_label_text(label: Seq<u8>)
    requires
        is_ascii_bytes(label),
    ensures
        label_text(label) == ascii_lowercase(ascii_text(label)),
{
    lemma_ascii_bytes_decode(label);
}

/// The labels of an ASCII text are ASCII.
pub proof fn lemma_text_labels_ascii(text: Seq<u8>)
    requires
        is_ascii_bytes(text),
    ensures
        forall|i: int|
            0 <= i < text_labels(text).len() ==> is_ascii_bytes(#[trigger] text_labels(text)[i]),
    decreases text.len(),
{
    if text.len() > 0 {
        let n = first_dot(text);
        crate::name::lemma_first_dot_bounds(text);
        let rest = if 0 <= n < text.len() {
            text_labels(text.skip(n + 1))
        } else {
            Seq::empty()
        };
        if n < text.len() {
            let tail = text.skip(n + 1);
            assert forall|k: int| 0 <= k < tail.len() implies #[trigger] tail[k] < 128 by {
                assert(text[n + 1 + k] < 128);
            }
            lemma_text_labels_ascii(tail);
        }
        if n > 0 {
            let head = text.take(n);
            assert forall|k: int| 0 <= k < head.len() implies #[trigger] head[k] < 128 by {
                assert(text[k] < 128);
            }
            let all = seq![head] + rest;
            assert forall|i: int| 0 <= i < all.len() implies is_ascii_bytes(#[trigger] all[i]) by {
                if i > 0 {
                    assert(all[i] == rest[i - 1]);
                }
            }
        }
    }
}

/// The text of ASCII labels is their bytes, dotted, as characters, with
/// the letters in lower case.
pub proof fn lemma_ascii_name_text(labels: Seq<Seq<u8>>)
    requires
        forall|i: int| 0 <= i < labels.len() ==> is_ascii_bytes(#[trigger] labels[i]),
    ensures
        name_text(labels) == ascii_lowercase(ascii_text(dotted(labels))),
    decreases labels.len(),
{
    if labels.len() == 0 {
        assert(ascii_lowercase(ascii_text(dotted(labels))) =~= Seq::<char>::empty());
    } else if labels.len() == 1 {
        lemma_ascii_label_text(labels[0]);
    } else {
        let front = labels.drop_last();
        let last = labels.last();
        assert forall|i: int| 0 <= i < front.len() implies is_ascii_bytes(#[trigger] front[i]) by {
            assert(front[i] == labels[i]);
        }
        lemma_ascii_name_text(front);
        lemma_ascii_label_text(last);
        assert(DOT as char == '.');
        assert(lower('.') == '.');
        let joined = dotted(front) + seq![DOT] + last;
        assert(ascii_lowercase(ascii_text(joined)) =~= ascii_lowercase(ascii_text(dotted(front)))
            + seq!['.'] + ascii_lowercase(ascii_text(last)));
    }
}

/// Labels behind a first label, dotted: the first label, a dot, and the
/// others dotted.
proof fn lemma_dotted_first(label: Seq<u8>, rest: Seq<Seq<u8>>)
    requires
        rest.len() > 0,
    ensures
        dotted(seq![label] + rest) == label + seq![DOT] + dotted(rest),
    decreases rest.len(),
{
    let all = seq![label] + rest;
    if rest.len() == 1 {
        assert(all.drop_last() =~= seq![label]);
        assert(all.last() == rest[0]);
        assert(dotted(seq![label]) == label);
        assert(dotted(rest) == rest[0]);
        assert(dotted(all) == dotted(all.drop_last()) + seq![DOT] + all.last());
    } else {
        let front = rest.drop_last();
        assert(all.drop_last() =~= seq![label] + front);
        assert(all.last() == rest.last());
        lemma_dotted_first(label, front);
        assert(dotted(all) == dotted(all.drop_last()) + seq![DOT] + all.last());
        assert(dotted(rest) == dotted(front) + seq![DOT] + rest.last());
        assert(label + seq![DOT] + dotted(front) + seq![DOT] + rest.last() =~= label + seq![DOT]
            + (dotted(front) + seq![DOT] + rest.last()));
    }
}

/// The first dot of a text is a dot, and no dot stands before it.
proof fn lemma_first_dot_is_first(text: Seq<u8>)
    ensures
        0 <= first_dot(text) <= text.len(),
        first_dot(text) < text.len() ==> text[first_dot(text)] == DOT,
        forall|k: int| 0 <= k < first_dot(text) ==> text[k] != DOT,
    decreases text.len(),
{
    if text.len() != 0 && text[0] != DOT {
        let tail = text.drop_first();
        lemma_first_dot_is_first(tail);
        assert forall|k: int| 0 <= k < first_dot(text) implies text[k] != DOT by {
            if k > 0 {
                assert(tail[k - 1] == text[k]);
            }
        }
    }
}

/// The labels of a name without an empty label, dotted, are the name.
pub proof fn lemma_dotted_labels(text: Seq<u8>)
    requires
        well_dotted_bytes(text),
    ensures
        dotted(text_labels(text)) == text,
        text.len() > 0 ==> text_labels(text).len() > 0,
    decreases text.len(),
{
    if text.len() > 0 {
        let n = first_dot(text);
        lemma_first_dot_is_first(text);
        assert(n > 0) by {
            if n == 0 {
                assert(text[0] == DOT);
            }
        }
        let head = text.take(n);
        if n == text.len() {
            assert(text_labels(text) =~= seq![head]);
            assert(head =~= text);
        } else {
            assert(text[n] == DOT);
            let tail = text.skip(n + 1);
            assert forall|i: int| 0 <= i < tail.len() && #[trigger] tail[i] == DOT implies 0 < i
                < tail.len() - 1 && tail[i + 1] != DOT by {
                assert(text[n + 1 + i] == DOT);
                assert(tail[0] == text[n + 1]);
            }
            lemma_dotted_labels(tail);
            lemma_dotted_first(head, text_labels(tail));
            assert(head + seq![DOT] + tail =~= text);
        }
    }
}

/// An ASCII name without an empty label is read back as it was written,
/// but for its letters, which are read in lower case.
pub proof fn lemma_canonical_ascii_name(name: Seq<char>)
    requires
        is_ascii_chars(name),
        well_dotted(name),
    ensures
        canonical_name(name) == ascii_lowercase(name),
        (forall|i: int| 0 <= i < name.len() ==> !('A' <= #[trigger] name[i] <= 'Z'))
            ==> canonical_name(name) == name,
{
    let bytes = encode_utf8(name);
    vstd::utf8::is_ascii_chars_encode_utf8(name);
    assert forall|i: int| 0 <= i < bytes.len() implies #[trigger] bytes[i] < 128 by {
        assert(name[i] as u8 == bytes[i]);
    }
    assert forall|i: int| 0 <= i < bytes.len() && #[trigger] bytes[i] == DOT implies 0 < i
        < bytes.len() - 1 && bytes[i + 1] != DOT by {
        assert(name[i] as u8 == bytes[i]);
        assert(name[i] == '.');
        assert(name[i + 1] as u8 == bytes[i + 1]);
    }
    lemma_text_labels_ascii(bytes);
    lemma_ascii_name_text(text_labels(bytes));
    lemma_dotted_labels(bytes);
    assert(ascii_text(bytes) =~= name) by {
        assert forall|i: int| 0 <= i < name.len() implies ascii_text(bytes)[i] == name[i] by {
            assert(name[i] as u8 == bytes[i]);
        }
    }
    if forall|i: int| 0 <= i < name.len() ==> !('A' <= #[trigger] name[i] <= 'Z') {
        assert(ascii_lowercase(name) =~= name);
    }
}

} // verus!
