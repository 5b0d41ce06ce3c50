//! Finding a member of a network by its name in the listing that the
//! directory of the network returns as JSON.

use vstd::prelude::*;
use vstd::string::StringSliceAdditionalSpecFns;
use json::JsonValue;

verus! {

/// Declares `json::JsonValue`, the value that the parser builds. Nothing
/// is said of what is inside; `json_content` names it.
#[verifier::external_type_specification]
#[verifier::external_body]
pub struct ExJsonValue(json::JsonValue);

/// Declares `json::Error`, with which the parser fails. Nothing is said
/// of what is inside, and nothing here looks inside.
#[verifier::external_type_specification]
#[verifier::external_body]
pub struct ExJsonError(json::Error);

/// A JSON value as a mathematical value. A number is held by its parts,
/// an object by its entries in their order.
pub enum Json {
    Null,
    Text(Seq<char>),
    Number { category: u8, mantissa: u64, exponent: i16 },
    Boolean(bool),
    Object(Seq<(Seq<char>, Json)>),
    Array(Seq<Json>),
}

/// What a `JsonValue` holds. The methods of `JsonValue` that are called
/// here are stated over it.
pub uninterp spec fn json_content(value: JsonValue) -> Json;

/// The value that `json::parse` makes of `text`, if it makes one.
pub uninterp spec fn json_parsed(text: Seq<char>) -> Option<Json>;

/// The text that `to_string` makes of a number, an array or an object.
pub uninterp spec fn json_display(content: Json) -> Seq<char>;

/// The members of an array; any other value has none.
pub open spec fn elements(content: Json) -> Seq<Json> {
    match content {
        Json::Array(items) => items,
        _ => Seq::empty(),
    }
}

/// The value of the first entry with `key`, or null where there is none.
pub open spec fn entry_value(entries: Seq<(Seq<char>, Json)>, key: Seq<char>) -> Json
    decreases entries.len(),
{
    if entries.len() == 0 {
        Json::Null
    } else if entries[0].0 == key {
        entries[0].1
    } else {
        entry_value(entries.drop_first(), key)
    }
}

/// What indexing a value by `key` gives: the entry of an object, null for
/// an object without that key and for any other value.
pub open spec fn field(content: Json, key: Seq<char>) -> Json {
    match content {
        Json::Object(entries) => entry_value(entries, key),
        _ => Json::Null,
    }
}

/// What indexing a value by `index` gives: the member of an array, null
/// beyond its end and for any other value.
pub open spec fn item(content: Json, index: int) -> Json {
    match content {
        Json::Array(items) => if 0 <= index < items.len() {
            items[index]
        } else {
            Json::Null
        },
        _ => Json::Null,
    }
}

/// The text of a value, where `printed` is what `to_string` prints of a
/// number, an array or an object: a string as it is, without quotes;
/// `null`, `true` and `false` by their names; any other value as printed.
pub open spec fn shown(content: Json, printed: Seq<char>) -> Seq<char> {
    match content {
        Json::Text(text) => text,
        Json::Null => "null"@,
        Json::Boolean(true) => "true"@,
        Json::Boolean(false) => "false"@,
        _ => printed,
    }
}

/// The text of a value.
pub open spec fn text_of(content: Json) -> Seq<char> {
    shown(content, json_display(content))
}

/// The most digits of a fraction that `json::parse` can count. It counts
/// them downwards from zero in sixteen bits.
pub const MAX_FRACTION: usize = 32768;

/// The byte of the quote that opens and closes a string.
pub const QUOTE: u8 = 0x22;

/// The byte of the backslash that escapes the byte behind it in a string.
pub const BACKSLASH: u8 = 0x5C;

/// The byte of the point in front of a fraction.
pub const POINT: u8 = 0x2E;

/// The byte of the digit zero.
pub const ZERO: u8 = 0x30;

/// A byte that is a decimal digit.
pub open spec fn is_digit(byte: u8) -> bool {
    0x30 <= byte <= 0x39
}

/// Where a reader of JSON stands: outside any string, inside a string,
/// or inside a string behind a backslash.
#[derive(Clone, Copy, Debug, PartialEq, Eq, Structural)]
pub enum Lex {
    Outside,
    Inside,
    Escaped,
}

/// Where the reader stands after one more byte. A quote opens a string
/// and closes it; inside a string a backslash takes the next byte with
/// it, whatever it is.
pub open spec fn lex_step(state: Lex, byte: u8) -> Lex {
    match state {
        Lex::Outside => if byte == QUOTE {
            Lex::Inside
        } else {
            Lex::Outside
        },
        Lex::Inside => if byte == BACKSLASH {
            Lex::Escaped
        } else if byte == QUOTE {
            Lex::Outside
        } else {
            Lex::Inside
        },
        Lex::Escaped => Lex::Inside,
    }
}

/// Where the reader stands after `bytes`.
pub open spec fn lex_after(bytes: Seq<u8>) -> Lex
    decreases bytes.len(),
{
    if bytes.len() == 0 {
        Lex::Outside
    } else {
        lex_step(lex_after(bytes.drop_last()), bytes.last())
    }
}

/// A fraction as far as it was read: the mantissa, and the number of
/// digits that were taken into it.
pub struct Fraction {
    pub mantissa: int,
    pub taken: nat,
}

/// The fraction after one more digit. The digit is taken into the
/// mantissa, and counted, where the mantissa then still fits 64 bits;
/// else it is passed over.
pub open spec fn take_digit(fraction: Fraction, digit: u8) -> Fraction {
    let next = fraction.mantissa * 10 + (digit - ZERO);
    if next <= u64::MAX {
        Fraction { mantissa: next, taken: fraction.taken + 1 }
    } else {
        fraction
    }
}

/// `bytes` end in a zero that is a whole number: no digit stands in
/// front of it.
pub open spec fn ends_in_lone_zero(bytes: Seq<u8>) -> bool {
    &&& bytes.len() >= 1
    &&& bytes.last() == ZERO
    &&& (bytes.len() == 1 || !is_digit(bytes[bytes.len() - 2]))
}

/// The fraction of a number `0` that `bytes` end in, if they end in one:
/// outside any string, a lone zero, a point, and digits. A fraction
/// behind any other number is none of these: its mantissa is not zero at
/// the point and takes twenty digits at most.
pub open spec fn fraction_after(bytes: Seq<u8>) -> Option<Fraction>
    decreases bytes.len(),
{
    if bytes.len() == 0 {
        None
    } else {
        let front = bytes.drop_last();
        let last = bytes.last();
        if lex_after(front) != Lex::Outside {
            None
        } else if last == POINT {
            if ends_in_lone_zero(front) {
                Some(Fraction { mantissa: 0, taken: 0 })
            } else {
                None
            }
        } else if is_digit(last) {
            match fraction_after(front) {
                Some(fraction) => Some(take_digit(fraction, last)),
                None => None,
            }
        } else {
            None
        }
    }
}

/// The digits counted so far in the fraction that `bytes` end in.
pub open spec fn taken_after(bytes: Seq<u8>) -> nat {
    match fraction_after(bytes) {
        Some(fraction) => fraction.taken,
        None => 0,
    }
}

/// In no fraction of a number `0` in `bytes` are more digits counted
/// than `MAX_FRACTION`.
pub open spec fn fractions_bounded(bytes: Seq<u8>) -> bool {
    forall|end: int| 0 <= end <= bytes.len() ==> #[trigger] taken_after(bytes.take(end))
        <= MAX_FRACTION
}

/// Calls `json::parse`. The contract names the value that comes of the
/// text and says that the call fails where there is none.
///
/// The parser counts the digits of a fraction downwards from zero in an
/// `i16`, one for each digit that its 64-bit mantissa takes, and does not
/// check the count. A mantissa that is not zero at the point takes twenty
/// digits at most. It is zero there only in a number `0`, which the
/// parser reads where a zero stands with no digit before it. The call is
/// made only on texts in which no such fraction counts more than 32768
/// digits, so the count stays in its range.
#[verifier::external_body]
fn parse_json(text: &str) -> (r: Result<JsonValue, json::Error>)
    requires
        fractions_bounded(text.spec_bytes()),
    ensures
        match r {
            Ok(value) => json_parsed(text@) == Some(json_content(value)),
            Err(_) => json_parsed(text@) is None,
        },
{
    json::parse(text)
}

/// Calls `JsonValue::is_array`, which tells an array from any other
/// value.
#[verifier::external_body]
fn value_is_array(value: &JsonValue) -> (r: bool)
    ensures
        r == (json_content(*value) is Array),
{
    value.is_array()
}

/// Calls `JsonValue::is_object`, which tells an object from any other
/// value.
#[verifier::external_body]
fn value_is_object(value: &JsonValue) -> (r: bool)
    ensures
        r == (json_content(*value) is Object),
{
    value.is_object()
}

/// Calls `JsonValue::members` and gathers what the iterator hands out:
/// the members of an array in their order, and nothing for any other
/// value.
#[verifier::external_body]
fn value_members(value: &JsonValue) -> (r: Vec<&JsonValue>)
    ensures
        r@.len() == elements(json_content(*value)).len(),
        forall|i: int|
            0 <= i < r@.len() ==> json_content(*#[trigger] r@[i]) == elements(
                json_content(*value),
            )[i],
{
    value.members().collect()
}

/// Indexes a `JsonValue` by a key: the entry of an object with that key,
/// and null where there is none or the value is no object.
#[verifier::external_body]
fn value_field<'a>(value: &'a JsonValue, key: &str) -> (r: &'a JsonValue)
    ensures
        json_content(*r) == field(json_content(*value), key@),
{
    &value[key]
}

/// Indexes a `JsonValue` by a number: the member of an array at that
/// place, and null beyond its end or where the value is no array.
#[verifier::external_body]
fn value_item(value: &JsonValue, index: usize) -> (r: &JsonValue)
    ensures
        json_content(*r) == item(json_content(*value), index as int),
{
    &value[index]
}

/// Calls `to_string` on a `JsonValue`: a string comes out as it is, null
/// and the booleans by their names, any other value as the text that the
/// contract names.
#[verifier::external_body]
fn value_text(value: &JsonValue) -> (r: String)
    ensures
        r@ == shown(json_content(*value), json_display(json_content(*value))),
{
    value.to_string()
}

/// Why a listing could not be read.
#[derive(Clone, Copy, Debug, PartialEq, Eq, Structural)]
pub enum DirectoryError {
    /// The text holds a number `0` with a fraction of which more than
    /// 32768 digits would be counted. It was not handed to the parser.
    FractionTooLong,
    /// The text is no JSON.
    Malformed,
}

/// A member of the network as the listing shows it.
#[derive(Clone, Debug, PartialEq, Eq)]
pub struct Member {
    pub name: String,
    pub address: String,
}

/// The name of a member: the text of its entry `name`.
pub open spec fn member_name(device: Json) -> Seq<char> {
    text_of(field(device, "name"@))
}

/// The address of a member: the text of the first of the entry
/// `ipAssignments` of its entry `config`.
pub open spec fn member_address(device: Json) -> Seq<char> {
    text_of(item(field(field(device, "config"@), "ipAssignments"@), 0))
}

/// A member of the listing that is an object and has the name `qname`.
pub open spec fn is_match(device: Json, qname: Seq<char>) -> bool {
    device is Object && member_name(device) == qname
}

/// The place of the first match among `devices` from `from` on.
pub open spec fn first_match(devices: Seq<Json>, qname: Seq<char>, from: int) -> Option<int>
    decreases devices.len() - from,
{
    if from < 0 || from >= devices.len() {
        None
    } else if is_match(devices[from], qname) {
        Some(from)
    } else {
        first_match(devices, qname, from + 1)
    }
}

/// The name and the address of the first member of the listing that is
/// named `qname`. A listing that is no array has no members.
pub open spec fn found_member(listing: Json, qname: Seq<char>) -> Option<(Seq<char>, Seq<char>)> {
    match first_match(elements(listing), qname, 0) {
        Some(place) => Some((qname, member_address(elements(listing)[place]))),
        None => None,
    }
}

/// The members that a search for `qname` looks at among `devices` from
/// `from` on, each by its name and its address: every object up to the
/// first that is named `qname`, and that one.
pub open spec fn seen_members(devices: Seq<Json>, qname: Seq<char>, from: int) -> Seq<
    (Seq<char>, Seq<char>),
>
    decreases devices.len() - from,
{
    if from < 0 || from >= devices.len() {
        Seq::empty()
    } else if !(devices[from] is Object) {
        seen_members(devices, qname, from + 1)
    } else if member_name(devices[from]) == qname {
        seq![(member_name(devices[from]), member_address(devices[from]))]
    } else {
        seq![(member_name(devices[from]), member_address(devices[from]))] + seen_members(
            devices,
            qname,
            from + 1,
        )
    }
}

/// Members by their names and addresses.
pub open spec fn member_views(members: Seq<Member>) -> Seq<(Seq<char>, Seq<char>)> {
    members.map_values(|member: Member| (member.name@, member.address@))
}

/// The member that is found is the last that the search looks at; a
/// search that finds none looks at no member of that name.
pub proof fn lemma_found_is_last_seen(devices: Seq<Json>, qname: Seq<char>, from: int)
    requires
        0 <= from,
    ensures
        match first_match(devices, qname, from) {
            Some(place) => seen_members(devices, qname, from).len() > 0 && seen_members(
                devices,
                qname,
                from,
            ).last() == (qname, member_address(devices[place])),
            None => forall|i: int|
                0 <= i < seen_members(devices, qname, from).len() ==> (#[trigger] seen_members(
                    devices,
                    qname,
                    from,
                )[i]).0 != qname,
        },
    decreases devices.len() - from,
{
    if from < devices.len() {
        lemma_found_is_last_seen(devices, qname, from + 1);
        let rest = seen_members(devices, qname, from + 1);
        if devices[from] is Object && member_name(devices[from]) != qname {
            let entry = (member_name(devices[from]), member_address(devices[from]));
            let all = seq![entry] + rest;
            if first_match(devices, qname, from) is Some {
                assert(all.last() == rest.last());
            } else {
                assert forall|i: int| 0 <= i < all.len() implies (#[trigger] all[i]).0
                    != qname by {
                    if i > 0 {
                        assert(all[i] == rest[i - 1]);
                    }
                }
            }
        }
    }
}

/// Whether in no fraction of a number `0` in `bytes` more digits are
/// counted than `MAX_FRACTION`. Digits inside strings, digits of whole
/// numbers and fractions behind other numbers are not counted.
pub fn has_short_fractions(bytes: &[u8]) -> (r: bool)
    ensures
        r == fractions_bounded(bytes@),
{
    let mut state: Lex = Lex::Outside;
    let mut reading: bool = false;
    let mut mantissa: u64 = 0;
    let mut taken: usize = 0;
    let mut i: usize = 0;
    assert(bytes@.take(0) =~= Seq::<u8>::empty());
    while i < bytes.len()
        invariant
            i <= bytes@.len(),
            state == lex_after(bytes@.take(i as int)),
            reading ==> fraction_after(bytes@.take(i as int)) == Some(
                Fraction { mantissa: mantissa as int, taken: taken as nat },
            ),
            !reading ==> fraction_after(bytes@.take(i as int)) is None,
            reading ==> taken <= MAX_FRACTION,
            forall|end: int| 0 <= end <= i ==> #[trigger] taken_after(bytes@.take(end))
                <= MAX_FRACTION,
        decreases bytes@.len() - i,
    {
        let byte: u8 = bytes[i];
        let lone_zero: bool = i >= 1 && bytes[i - 1] == ZERO && (i == 1 || !(bytes[i - 2] >= 0x30
            && bytes[i - 2] <= 0x39));
        proof {
            let front = bytes@.take(i as int);
            let upto = bytes@.take(i + 1);
            assert(upto.last() == byte);
            assert(upto.drop_last() =~= front);
            if i >= 1 {
                assert(front.last() == bytes@[i - 1]);
            }
            if i >= 2 {
                assert(front[front.len() - 2] == bytes@[i - 2]);
            }
            assert(lone_zero == ends_in_lone_zero(front));
        }
        match state {
            Lex::Outside => {
                if byte == POINT {
                    reading = lone_zero;
                    mantissa = 0;
                    taken = 0;
                } else if byte >= 0x30 && byte <= 0x39 {
                    if reading {
                        let next: u128 = mantissa as u128 * 10 + (byte - ZERO) as u128;
                        if next <= u64::MAX as u128 {
                            if taken == MAX_FRACTION {
                                assert(taken_after(bytes@.take(i + 1)) > MAX_FRACTION);
                                return false;
                            }
                            mantissa = next as u64;
                            taken += 1;
                        }
                    }
                } else {
                    reading = false;
                }
                if byte == QUOTE {
                    state = Lex::Inside;
                }
            },
            Lex::Inside => {
                reading = false;
                if byte == BACKSLASH {
                    state = Lex::Escaped;
                } else if byte == QUOTE {
                    state = Lex::Outside;
                }
            },
            Lex::Escaped => {
                reading = false;
                state = Lex::Inside;
            },
        }
        i += 1;
    }
    true
}

/// Reads a listing. A text with a fraction that the parser cannot count
/// is refused; any other text is parsed.
pub fn parse_listing(response: &str) -> (r: Result<JsonValue, DirectoryError>)
    ensures
        !fractions_bounded(response.spec_bytes()) ==> r is Err && r->Err_0
            == DirectoryError::FractionTooLong,
        fractions_bounded(response.spec_bytes()) ==> match json_parsed(response@) {
            None => r is Err && r->Err_0 == DirectoryError::Malformed,
            Some(listing) => r is Ok && json_content(r->Ok_0) == listing,
        },
{
    if !has_short_fractions(response.as_bytes()) {
        return Err(DirectoryError::FractionTooLong);
    }
    match parse_json(response) {
        Ok(listing) => Ok(listing),
        Err(_) => Err(DirectoryError::Malformed),
    }
}

/// Looks for `qname` in a listing. The listing is an array; each of its
/// members that is an object is one member of the network. The first
/// member named `qname` is returned, with its address as text.
pub fn find_member(listing: &JsonValue, qname: &str) -> (r: Option<Member>)
    ensures
        match found_member(json_content(*listing), qname@) {
            Some(found) => r is Some && r->Some_0.name@ == found.0 && r->Some_0.address@ == found.1,
            None => r is None,
        },
{
    let wanted: String = qname.to_owned();
    if value_is_array(listing) {
        let devices: Vec<&JsonValue> = value_members(listing);
        let ghost all = elements(json_content(*listing));
        let mut i: usize = 0;
        while i < devices.len()
            invariant
                i <= devices@.len(),
                wanted@ == qname@,
                all == elements(json_content(*listing)),
                devices@.len() == all.len(),
                forall|k: int| 0 <= k < devices@.len() ==> json_content(*#[trigger] devices@[k])
                    == all[k],
                first_match(all, qname@, 0) == first_match(all, qname@, i as int),
            decreases devices@.len() - i,
        {
            let device: &JsonValue = devices[i];
            if value_is_object(device) {
                let name: String = value_text(value_field(device, "name"));
                let address: String = value_text(
                    value_item(value_field(value_field(device, "config"), "ipAssignments"), 0),
                );
                if name == wanted {
                    return Some(Member { name, address });
                }
            }
            i += 1;
        }
        None
    } else {
        None
    }
}

/// The members that a search for `qname` looks at, in their order: each
/// object of the listing up to the first that is named `qname`, and that
/// one.
pub fn members_seen(listing: &JsonValue, qname: &str) -> (r: Vec<Member>)
    ensures
        member_views(r@) == seen_members(elements(json_content(*listing)), qname@, 0),
{
    let wanted: String = qname.to_owned();
    let mut seen: Vec<Member> = Vec::new();
    let devices: Vec<&JsonValue> = value_members(listing);
    let ghost all = elements(json_content(*listing));
    let mut i: usize = 0;
    assert(member_views(seen@) =~= Seq::empty());
    assert(member_views(seen@) + seen_members(all, qname@, 0) =~= seen_members(all, qname@, 0));
    while i < devices.len()
        invariant
            i <= devices@.len(),
            wanted@ == qname@,
            all == elements(json_content(*listing)),
            devices@.len() == all.len(),
            forall|k: int| 0 <= k < devices@.len() ==> json_content(*#[trigger] devices@[k])
                == all[k],
            seen_members(all, qname@, 0) == member_views(seen@) + seen_members(
                all,
                qname@,
                i as int,
            ),
        decreases devices@.len() - i,
    {
        let device: &JsonValue = devices[i];
        if value_is_object(device) {
            let name: String = value_text(value_field(device, "name"));
            let address: String = value_text(
                value_item(value_field(value_field(device, "config"), "ipAssignments"), 0),
            );
            let matched: bool = name == wanted;
            let ghost before = member_views(seen@);
            let ghost entry = (name@, address@);
            seen.push(Member { name, address });
            proof {
                assert(member_views(seen@) =~= before + seq![entry]);
                let rest = seen_members(all, qname@, i + 1);
                assert(before + (seq![entry] + rest) =~= (before + seq![entry]) + rest);
                assert((before + seq![entry]) + Seq::empty() =~= before + seq![entry]);
            }
            if matched {
                return seen;
            }
        }
        i += 1;
    }
    assert(member_views(seen@) + Seq::empty() =~= member_views(seen@));
    seen
}

/// Reads the listing in `response` and looks for `qname` in it.
pub fn lookup_member(response: &str, qname: &str) -> (r: Result<Option<Member>, DirectoryError>)
    ensures
        !fractions_bounded(response.spec_bytes()) ==> r == Err::<Option<Member>, DirectoryError>(
            DirectoryError::FractionTooLong,
        ),
        fractions_bounded(response.spec_bytes()) ==> match json_parsed(response@) {
            None => r == Err::<Option<Member>, DirectoryError>(DirectoryError::Malformed),
            Some(listing) => match found_member(listing, qname@) {
                Some(found) => r is Ok && r->Ok_0 is Some && r->Ok_0->Some_0.name@ == found.0
                    && r->Ok_0->Some_0.address@ == found.1,
                None => r is Ok && r->Ok_0 is None,
            },
        },
{
    match parse_listing(response) {
        Ok(listing) => Ok(find_member(&listing, qname)),
        Err(e) => Err(e),
    }
}

} // verus!
