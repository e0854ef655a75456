//! The events of the auction benchmark as encoded rows.

use vstd::prelude::*;
use vstd::utf8::*;

use crate::byte_order;
use crate::byte_order::{push_i64_le, push_u32_le, to_i64};
use crate::encoding;
use crate::encoding::{EncodedScalarView, EncodingError};

verus! {

/// Somebody who sells or bids.
#[derive(Debug, PartialEq, Eq)]
pub struct Person {
    pub id: usize,
    pub name: String,
    pub email_address: String,
    pub credit_card: String,
    pub city: String,
    pub state: String,
    pub date_time: u64,
    pub extra: String,
}

/// An item that is up for auction.
#[derive(Debug, PartialEq, Eq)]
pub struct Auction {
    pub id: usize,
    pub item_name: String,
    pub description: String,
    pub initial_bid: usize,
    pub reserve: usize,
    pub date_time: u64,
    pub expires: u64,
    pub seller: usize,
    pub category: usize,
    pub extra: String,
}

/// An offer for an item.
#[derive(Debug, PartialEq, Eq)]
pub struct Bid {
    pub auction: usize,
    pub bidder: usize,
    pub price: usize,
    pub channel: String,
    pub url: String,
    pub date_time: u64,
    pub extra: String,
}

/// Numbers of an event that have to fit.
#[derive(Clone, Copy, Debug, PartialEq, Eq, Structural)]
pub enum NumberName {
    InitialBid,
    Reserve,
    Price,
}

/// Why an event has no encoded row.
#[derive(Clone, Copy, Debug, PartialEq, Eq, Structural)]
pub enum KeyError {
    /// A number is above the largest sixty-four bit integer.
    NumberTooLarge(NumberName, usize),
    /// A time is above the largest sixty-four bit integer.
    TimeTooLarge(u64),
    /// A text is longer than a text length can tell.
    TextTooLong,
}

/// A part of an event.
enum Part<'a> {
    /// An identifier, by its bits.
    Id(usize),
    Number(NumberName, usize),
    Text(&'a str),
    /// Milliseconds since the epoch.
    Time(u64),
}

/// What a part of an event stands for.
pub enum PartView {
    Id(usize),
    Number(NumberName, usize),
    Text(Seq<char>),
    Time(u64),
}

impl<'a> View for Part<'a> {
    type V = PartView;

    closed spec fn view(&self) -> PartView {
        match *self {
            Part::Id(id) => PartView::Id(id),
            Part::Number(name, number) => PartView::Number(name, number),
            Part::Text(text) => PartView::Text(text@),
            Part::Time(time) => PartView::Time(time),
        }
    }
}

/// What parts stand for.
spec fn part_views(parts: Seq<Part>) -> Seq<PartView> {
    Seq::new(parts.len(), |i: int| parts[i]@)
}

/// Why a part cannot be encoded.
pub open spec fn part_fault(part: PartView) -> Option<KeyError> {
    match part {
        PartView::Id(id) => None,
        PartView::Number(name, number) => if number > i64::MAX {
            Some(KeyError::NumberTooLarge(name, number))
        } else {
            None
        },
        PartView::Text(text) => if encode_utf8(text).len() > u32::MAX {
            Some(KeyError::TextTooLong)
        } else {
            None
        },
        PartView::Time(time) => if time > i64::MAX {
            Some(KeyError::TimeTooLarge(time))
        } else {
            None
        },
    }
}

/// The value that a part is encoded as.
pub open spec fn part_value(part: PartView) -> EncodedScalarView {
    match part {
        PartView::Id(id) => EncodedScalarView::Int64(byte_order::signed64(id as nat) as i64),
        PartView::Number(name, number) => EncodedScalarView::Int64(number as i64),
        PartView::Text(text) => EncodedScalarView::Utf8(text),
        PartView::Time(time) => EncodedScalarView::TimestampMillis(time as i64),
    }
}

/// The field of a value: its tag and its payload.
pub open spec fn field_of(value: EncodedScalarView) -> Seq<u8> {
    match value {
        EncodedScalarView::Int64(v) => seq![0x01u8] + byte_order::le8_bytes(
            byte_order::unsigned64(v as int),
        ),
        EncodedScalarView::TimestampMillis(v) => seq![0x03u8] + byte_order::le8_bytes(
            byte_order::unsigned64(v as int),
        ),
        EncodedScalarView::Utf8(text) => seq![0x02u8] + byte_order::le4_bytes(
            encode_utf8(text).len(),
        ) + encode_utf8(text),
        _ => Seq::empty(),
    }
}

/// The first fault of the first `n` parts.
pub open spec fn first_fault(parts: Seq<PartView>, n: nat) -> Option<KeyError>
    decreases n,
{
    if n == 0 {
        None
    } else {
        match first_fault(parts, (n - 1) as nat) {
            Some(error) => Some(error),
            None => part_fault(parts[n - 1]),
        }
    }
}

/// The fields of parts.
pub open spec fn fields_of(parts: Seq<PartView>) -> Seq<Seq<u8>> {
    Seq::new(parts.len(), |i: int| field_of(part_value(parts[i])))
}

/// The encoded row of an event with these parts, or the first reason why it has none.
pub open spec fn event_row(parts: Seq<PartView>) -> Result<Seq<u8>, KeyError> {
    match first_fault(parts, parts.len()) {
        Some(error) => Err(error),
        None => Ok(encoding::row_of(fields_of(parts))),
    }
}

/// The parts of a person.
pub open spec fn person_parts(person: Person) -> Seq<PartView> {
    seq![
        PartView::Id(person.id),
        PartView::Text(person.name@),
        PartView::Text(person.email_address@),
        PartView::Text(person.credit_card@),
        PartView::Text(person.city@),
        PartView::Text(person.state@),
        PartView::Time(person.date_time),
        PartView::Text(person.extra@),
    ]
}

/// The parts of an auction.
pub open spec fn auction_parts(auction: Auction) -> Seq<PartView> {
    seq![
        PartView::Id(auction.id),
        PartView::Text(auction.item_name@),
        PartView::Text(auction.description@),
        PartView::Number(NumberName::InitialBid, auction.initial_bid),
        PartView::Number(NumberName::Reserve, auction.reserve),
        PartView::Id(auction.seller),
        PartView::Id(auction.category),
        PartView::Time(auction.expires),
        PartView::Time(auction.date_time),
        PartView::Text(auction.extra@),
    ]
}

/// The parts of a bid.
pub open spec fn bid_parts(bid: Bid) -> Seq<PartView> {
    seq![
        PartView::Id(bid.auction),
        PartView::Id(bid.bidder),
        PartView::Number(NumberName::Price, bid.price),
        PartView::Text(bid.channel@),
        PartView::Text(bid.url@),
        PartView::Time(bid.date_time),
        PartView::Text(bid.extra@),
    ]
}

/// A row or an error as mathematical values.
pub open spec fn row_outcome(result: Result<Vec<u8>, KeyError>) -> Result<Seq<u8>, KeyError> {
    match result {
        Ok(row) => Ok(row@),
        Err(error) => Err(error),
    }
}

/// Appends the field of an integer.
fn encode_i64_field(encoded: &mut Vec<u8>, value: i64)
    ensures
        final(encoded)@ == old(encoded)@ + field_of(EncodedScalarView::Int64(value)),
{
    encoded.push(0x01);
    push_i64_le(encoded, value);
    assert(encoded@ =~= old(encoded)@ + field_of(EncodedScalarView::Int64(value)));
}

/// Appends the field of a time.
fn encode_timestamp_field(encoded: &mut Vec<u8>, value: i64)
    ensures
        final(encoded)@ == old(encoded)@ + field_of(EncodedScalarView::TimestampMillis(value)),
{
    encoded.push(0x03);
    push_i64_le(encoded, value);
    assert(encoded@ =~= old(encoded)@ + field_of(EncodedScalarView::TimestampMillis(value)));
}

/// Appends the field of a text.
fn encode_utf8_field(encoded: &mut Vec<u8>, value: &str) -> (result: Result<(), KeyError>)
    ensures
        if encode_utf8(value@).len() > u32::MAX {
            result == Err::<(), KeyError>(KeyError::TextTooLong)
        } else {
            result is Ok && final(encoded)@ == old(encoded)@ + field_of(
                EncodedScalarView::Utf8(value@),
            )
        },
{
    let bytes = value.as_bytes();
    if bytes.len() as u64 > u32::MAX as u64 {
        return Err(KeyError::TextTooLong);
    }
    encoded.push(0x02);
    push_u32_le(encoded, bytes.len() as u32);
    encoded.extend_from_slice(bytes);
    assert(encoded@ =~= old(encoded)@ + field_of(EncodedScalarView::Utf8(value@)));
    Ok(())
}

proof fn lemma_fault_stays(parts: Seq<PartView>, n: nat, m: nat)
    requires
        n <= m,
        first_fault(parts, n) is Some,
    ensures
        first_fault(parts, m) == first_fault(parts, n),
    decreases m,
{
    if n < m {
        lemma_fault_stays(parts, n, (m - 1) as nat);
    }
}

/// Appends the field of a part.
fn encode_part(encoded: &mut Vec<u8>, part: &Part) -> (result: Result<(), KeyError>)
    ensures
        match part_fault(part@) {
            Some(error) => result == Err::<(), KeyError>(error),
            None => result is Ok && final(encoded)@ == old(encoded)@ + field_of(part_value(part@)),
        },
{
    match part {
        Part::Id(id) => {
            encode_i64_field(encoded, to_i64(*id as u64));
            Ok(())
        },
        Part::Number(name, number) => {
            if *number as u64 > i64::MAX as u64 {
                return Err(KeyError::NumberTooLarge(*name, *number));
            }
            encode_i64_field(encoded, *number as i64);
            Ok(())
        },
        Part::Text(text) => encode_utf8_field(encoded, text),
        Part::Time(time) => {
            if *time > i64::MAX as u64 {
                return Err(KeyError::TimeTooLarge(*time));
            }
            encode_timestamp_field(encoded, *time as i64);
            Ok(())
        },
    }
}

/// The encoded row of an event with these parts.
fn encode_parts(parts: &Vec<Part>) -> (result: Result<Vec<u8>, KeyError>)
    requires
        parts@.len() <= u32::MAX,
    ensures
        row_outcome(result) == event_row(part_views(parts@)),
{
    let ghost views = part_views(parts@);
    let ghost fields = fields_of(views);
    let mut encoded: Vec<u8> = Vec::new();
    push_u32_le(&mut encoded, parts.len() as u32);
    let ghost head = byte_order::le4_bytes(fields.len());
    let mut i: usize = 0;
    assert(fields.take(0) =~= Seq::empty());
    assert(encoded@ =~= head + encoding::joined(fields.take(0)));
    while i < parts.len()
        invariant
            i <= parts@.len(),
            views == part_views(parts@),
            fields == fields_of(views),
            head == byte_order::le4_bytes(fields.len()),
            first_fault(views, i as nat) is None,
            encoded@ == head + encoding::joined(fields.take(i as int)),
        decreases parts@.len() - i,
    {
        let ghost before = encoded@;
        match encode_part(&mut encoded, &parts[i]) {
            Ok(_) => {},
            Err(error) => {
                proof {
                    lemma_fault_stays(views, (i + 1) as nat, views.len());
                }
                return Err(error);
            },
        }
        proof {
            assert(fields.take(i + 1).drop_last() =~= fields.take(i as int));
            assert(fields.take(i + 1).last() == fields[i as int]);
            assert(encoded@ =~= head + encoding::joined(fields.take(i + 1)));
        }
        i = i + 1;
    }
    assert(fields.take(fields.len() as int) =~= fields);
    Ok(encoded)
}

/// The encoded row of a person.
pub fn encode_person_key(person: &Person) -> (result: Result<Vec<u8>, KeyError>)
    ensures
        row_outcome(result) == event_row(person_parts(*person)),
{
    let parts: Vec<Part> = vec![
        Part::Id(person.id),
        Part::Text(person.name.as_str()),
        Part::Text(person.email_address.as_str()),
        Part::Text(person.credit_card.as_str()),
        Part::Text(person.city.as_str()),
        Part::Text(person.state.as_str()),
        Part::Time(person.date_time),
        Part::Text(person.extra.as_str()),
    ];
    assert(part_views(parts@) =~= person_parts(*person));
    encode_parts(&parts)
}

/// The encoded row of an auction.
pub fn encode_auction_key(auction: &Auction) -> (result: Result<Vec<u8>, KeyError>)
    ensures
        row_outcome(result) == event_row(auction_parts(*auction)),
{
    let parts: Vec<Part> = vec![
        Part::Id(auction.id),
        Part::Text(auction.item_name.as_str()),
        Part::Text(auction.description.as_str()),
        Part::Number(NumberName::InitialBid, auction.initial_bid),
        Part::Number(NumberName::Reserve, auction.reserve),
        Part::Id(auction.seller),
        Part::Id(auction.category),
        Part::Time(auction.expires),
        Part::Time(auction.date_time),
        Part::Text(auction.extra.as_str()),
    ];
    assert(part_views(parts@) =~= auction_parts(*auction));
    encode_parts(&parts)
}

/// The encoded row of a bid.
pub fn encode_bid_key(bid: &Bid) -> (result: Result<Vec<u8>, KeyError>)
    ensures
        row_outcome(result) == event_row(bid_parts(*bid)),
{
    let parts: Vec<Part> = vec![
        Part::Id(bid.auction),
        Part::Id(bid.bidder),
        Part::Number(NumberName::Price, bid.price),
        Part::Text(bid.channel.as_str()),
        Part::Text(bid.url.as_str()),
        Part::Time(bid.date_time),
        Part::Text(bid.extra.as_str()),
    ];
    assert(part_views(parts@) =~= bid_parts(*bid));
    encode_parts(&parts)
}

/// The value of an encoded part is read back from its field.
proof fn lemma_field_round_trip(part: PartView)
    requires
        part_fault(part) is None,
    ensures
        ({
            let field = field_of(part_value(part));
            &&& encoding::is_field(field)
            &&& encoding::field_value(field[0], field.skip(1)) == Ok::<
                Option<EncodedScalarView>,
                EncodingError,
            >(Some(part_value(part)))
        }),
{
    let field = field_of(part_value(part));
    match part_value(part) {
        EncodedScalarView::Int64(v) => {
            let bytes = byte_order::le8_bytes(byte_order::unsigned64(v as int));
            byte_order::lemma_le8_round_trip(byte_order::unsigned64(v as int));
            assert(field.skip(1) =~= bytes);
        },
        EncodedScalarView::TimestampMillis(v) => {
            let bytes = byte_order::le8_bytes(byte_order::unsigned64(v as int));
            byte_order::lemma_le8_round_trip(byte_order::unsigned64(v as int));
            assert(field.skip(1) =~= bytes);
        },
        EncodedScalarView::Utf8(text) => {
            let bytes = encode_utf8(text);
            let size = byte_order::le4_bytes(bytes.len());
            byte_order::lemma_le4_round_trip(bytes.len());
            encode_utf8_valid_utf8(text);
            encode_utf8_decode_utf8(text);
            assert(field.skip(1) =~= size + bytes);
            assert(byte_order::le4(size + bytes) == byte_order::le4(size));
            assert((size + bytes).skip(4) =~= bytes);
        },
        _ => {},
    }
}

proof fn lemma_no_part_fault(parts: Seq<PartView>, n: nat, i: int)
    requires
        first_fault(parts, n) is None,
        0 <= i < n,
    ensures
        part_fault(parts[i]) is None,
    decreases n,
{
    if i < n - 1 {
        lemma_no_part_fault(parts, (n - 1) as nat, i);
    }
}

/// Decoding the encoded row of an event gives the values of its parts.
pub proof fn law_event_is_read_back(parts: Seq<PartView>)
    requires
        event_row(parts) is Ok,
        parts.len() <= u32::MAX,
    ensures
        encoding::decoded_row(event_row(parts)->Ok_0) == Ok::<
            Seq<Option<EncodedScalarView>>,
            EncodingError,
        >(Seq::new(parts.len(), |i: int| Some(part_value(parts[i])))),
{
    let fields = fields_of(parts);
    let row = encoding::row_of(fields);
    assert forall|i: int| 0 <= i < fields.len() implies encoding::is_field(#[trigger] fields[i]) by {
        lemma_no_part_fault(parts, parts.len(), i);
        lemma_field_round_trip(parts[i]);
    }
    encoding::lemma_row_of_columns(fields, Seq::empty());
    assert(row + Seq::<u8>::empty() =~= row);
    assert forall|i: int| 0 <= i < parts.len() implies #[trigger] encoding::column_value(row, i)
        == Ok::<Option<EncodedScalarView>, EncodingError>(Some(part_value(parts[i]))) by {
        lemma_no_part_fault(parts, parts.len(), i);
        lemma_field_round_trip(parts[i]);
        assert(encoding::column_bytes(row, i) == fields[i]);
    }
    assert(encoding::row_values(row) =~= Seq::new(
        parts.len(),
        |i: int| Some(part_value(parts[i])),
    ));
}

/// The columns of the row of a person.
pub proof fn law_person_is_read_back(person: Person)
    requires
        event_row(person_parts(person)) is Ok,
    ensures
        encoding::decoded_row(event_row(person_parts(person))->Ok_0) matches Ok(values) && {
            &&& values.len() == 8
            &&& values[0] matches Some(EncodedScalarView::Int64(id)) && id
                == byte_order::signed64(person.id as nat)
            &&& values[1] == Some(EncodedScalarView::Utf8(person.name@))
            &&& values[2] == Some(EncodedScalarView::Utf8(person.email_address@))
            &&& values[3] == Some(EncodedScalarView::Utf8(person.credit_card@))
            &&& values[4] == Some(EncodedScalarView::Utf8(person.city@))
            &&& values[5] == Some(EncodedScalarView::Utf8(person.state@))
            &&& values[6] matches Some(EncodedScalarView::TimestampMillis(time)) && time
                == person.date_time
            &&& values[7] == Some(EncodedScalarView::Utf8(person.extra@))
        },
{
    let parts = person_parts(person);
    law_event_is_read_back(parts);
    lemma_no_part_fault(parts, 8, 6);
}

/// The columns of the row of an auction.
pub proof fn law_auction_is_read_back(auction: Auction)
    requires
        event_row(auction_parts(auction)) is Ok,
    ensures
        encoding::decoded_row(event_row(auction_parts(auction))->Ok_0) matches Ok(values) && {
            &&& values.len() == 10
            &&& values[0] matches Some(EncodedScalarView::Int64(id)) && id
                == byte_order::signed64(auction.id as nat)
            &&& values[1] == Some(EncodedScalarView::Utf8(auction.item_name@))
            &&& values[2] == Some(EncodedScalarView::Utf8(auction.description@))
            &&& values[3] matches Some(EncodedScalarView::Int64(bid)) && bid
                == auction.initial_bid
            &&& values[4] matches Some(EncodedScalarView::Int64(reserve)) && reserve
                == auction.reserve
            &&& values[5] matches Some(EncodedScalarView::Int64(seller)) && seller
                == byte_order::signed64(auction.seller as nat)
            &&& values[6] matches Some(EncodedScalarView::Int64(category)) && category
                == byte_order::signed64(auction.category as nat)
            &&& values[7] matches Some(EncodedScalarView::TimestampMillis(expires)) && expires
                == auction.expires
            &&& values[8] matches Some(EncodedScalarView::TimestampMillis(time)) && time
                == auction.date_time
            &&& values[9] == Some(EncodedScalarView::Utf8(auction.extra@))
        },
{
    let parts = auction_parts(auction);
    law_event_is_read_back(parts);
    lemma_no_part_fault(parts, 10, 3);
    lemma_no_part_fault(parts, 10, 4);
    lemma_no_part_fault(parts, 10, 7);
    lemma_no_part_fault(parts, 10, 8);
}

/// The columns of the row of a bid.
pub proof fn law_bid_is_read_back(bid: Bid)
    requires
        event_row(bid_parts(bid)) is Ok,
    ensures
        encoding::decoded_row(event_row(bid_parts(bid))->Ok_0) matches Ok(values) && {
            &&& values.len() == 7
            &&& values[0] matches Some(EncodedScalarView::Int64(auction)) && auction
                == byte_order::signed64(bid.auction as nat)
            &&& values[1] matches Some(EncodedScalarView::Int64(bidder)) && bidder
                == byte_order::signed64(bid.bidder as nat)
            &&& values[2] matches Some(EncodedScalarView::Int64(price)) && price == bid.price
            &&& values[3] == Some(EncodedScalarView::Utf8(bid.channel@))
            &&& values[4] == Some(EncodedScalarView::Utf8(bid.url@))
            &&& values[5] matches Some(EncodedScalarView::TimestampMillis(time)) && time
                == bid.date_time
            &&& values[6] == Some(EncodedScalarView::Utf8(bid.extra@))
        },
{
    let parts = bid_parts(bid);
    law_event_is_read_back(parts);
    lemma_no_part_fault(parts, 7, 2);
    lemma_no_part_fault(parts, 7, 5);
}

/// An event has a row where each of its numbers and times is one of sixty-four bits with a sign
/// and the length of each of its texts one of thirty-two bits; else the first part that is not
/// tells why it has none.
pub proof fn law_events_without_a_row(parts: Seq<PartView>)
    ensures
        match event_row(parts) {
            Ok(_) => forall|i: int|
                0 <= i < parts.len() ==> match #[trigger] parts[i] {
                    PartView::Id(_) => true,
                    PartView::Number(_, number) => number <= 0x7fff_ffff_ffff_ffff,
                    PartView::Time(time) => time <= 0x7fff_ffff_ffff_ffff,
                    PartView::Text(text) => encode_utf8(text).len() <= 0xffff_ffff,
                },
            Err(error) => exists|i: int|
                {
                    &&& 0 <= i < parts.len()
                    &&& match #[trigger] parts[i] {
                        PartView::Id(_) => false,
                        PartView::Number(name, number) => number > 0x7fff_ffff_ffff_ffff && error
                            == KeyError::NumberTooLarge(name, number),
                        PartView::Time(time) => time > 0x7fff_ffff_ffff_ffff && error
                            == KeyError::TimeTooLarge(time),
                        PartView::Text(text) => encode_utf8(text).len() > 0xffff_ffff && error
                            == KeyError::TextTooLong,
                    }
                    &&& event_row(parts.take(i)) is Ok
                },
        },
{
    lemma_fault_is_the_first(parts, parts.len());
    if event_row(parts) is Ok {
        assert forall|i: int| 0 <= i < parts.len() implies match #[trigger] parts[i] {
            PartView::Id(_) => true,
            PartView::Number(_, number) => number <= 0x7fff_ffff_ffff_ffff,
            PartView::Time(time) => time <= 0x7fff_ffff_ffff_ffff,
            PartView::Text(text) => encode_utf8(text).len() <= 0xffff_ffff,
        } by {
            lemma_no_part_fault(parts, parts.len(), i);
        }
    }
}

proof fn lemma_fault_is_the_first(parts: Seq<PartView>, n: nat)
    requires
        n <= parts.len(),
    ensures
        first_fault(parts, n) matches Some(error) ==> exists|i: int|
            {
                &&& 0 <= i < n
                &&& part_fault(#[trigger] parts[i]) == Some(error)
                &&& event_row(parts.take(i)) is Ok
            },
    decreases n,
{
    if n > 0 {
        lemma_fault_is_the_first(parts, (n - 1) as nat);
        if first_fault(parts, (n - 1) as nat) is None && part_fault(parts[n - 1]) is Some {
            lemma_fault_of_a_prefix(parts, (n - 1) as nat, (n - 1) as nat);
        }
    }
}

proof fn lemma_fault_of_a_prefix(parts: Seq<PartView>, m: nat, n: nat)
    requires
        n <= m <= parts.len(),
    ensures
        first_fault(parts.take(m as int), n) == first_fault(parts, n),
    decreases n,
{
    if n > 0 {
        lemma_fault_of_a_prefix(parts, m, (n - 1) as nat);
    }
}

} // verus!
