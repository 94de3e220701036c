//! The payload of a tracking frame: the list of devices, one per line.
//!
//! Each line is an identifier, a tab, and the word for the device's state. A
//! line feed ends a line; the last line may go without one. A line is
//! malformed when it holds no tab, when nothing stands before its first tab,
//! or when what stands there is not valid UTF-8. A malformed line is skipped
//! and the lines after it are read as usual, so that one corrupt record does
//! not lose the others. Where an identifier occurs on several lines the last
//! of them decides its state.

use crate::device::{
    identifiers_of, lemma_table_entry, lemma_table_identifiers, lemma_table_size, DeviceRecord,
    DeviceState, DeviceTable,
};
use crate::lexical::{ascending_list, lemma_ascending_list_lists};
use crate::text::decode_text;
use crate::wire::ascii;
use vstd::prelude::*;
use vstd::slice::{slice_subrange, slice_to_vec};
use vstd::string::is_ascii_spec_bytes;
use vstd::utf8::{
    char_is_scalar, char_u32_cast, decode_utf8, encode_scalar, encode_utf8,
    encode_utf8_decode_utf8, encode_utf8_valid_utf8, has_width_1_encoding,
    is_char_boundary_iff_not_is_continuation_byte, last_continuation_byte,
    leading_byte_width_1, leading_byte_width_2, leading_byte_width_3, leading_byte_width_4,
    pop_first_scalar, second_last_continuation_byte, third_last_continuation_byte, valid_utf8,
    valid_utf8_split,
};

verus! {

/// The byte that separates an identifier from the word for its state.
pub const TAB: u8 = 0x09;

/// The byte that ends a line.
pub const LINE_FEED: u8 = 0x0A;

/// Position of the first `byte` in `bytes`; the length of `bytes` if it
/// holds none.
pub open spec fn position_of(bytes: Seq<u8>, byte: u8) -> int
    decreases bytes.len(),
{
    if bytes.len() == 0 || bytes[0] == byte {
        0
    } else {
        1 + position_of(bytes.drop_first(), byte)
    }
}

/// The state that a word of the server stands for.
pub open spec fn state_of_word(word: Seq<u8>) -> DeviceState {
    if word == ascii("online"@) {
        DeviceState::Online
    } else if word == ascii("offline"@) {
        DeviceState::Offline
    } else if word == ascii("unauthorized"@) {
        DeviceState::Unauthorized
    } else if word == ascii("bootloader"@) {
        DeviceState::Bootloader
    } else {
        DeviceState::Other
    }
}

/// The record that a line states, if the line is well formed.
pub open spec fn line_record(line: Seq<u8>) -> Option<(Seq<char>, DeviceState)> {
    let tab = position_of(line, TAB);
    if 0 < tab < line.len() && valid_utf8(line.subrange(0, tab)) {
        Some(
            (
                decode_utf8(line.subrange(0, tab)),
                state_of_word(line.subrange(tab + 1, line.len() as int)),
            ),
        )
    } else {
        None
    }
}

/// `table` after one more line was read.
pub open spec fn with_line(table: Map<Seq<char>, DeviceState>, line: Seq<u8>) -> Map<
    Seq<char>,
    DeviceState,
> {
    match line_record(line) {
        Some((identifier, state)) => table.insert(identifier, state),
        None => table,
    }
}

/// `table` after the lines of `payload` were read, from the first to the last.
pub open spec fn with_lines(table: Map<Seq<char>, DeviceState>, payload: Seq<u8>) -> Map<
    Seq<char>,
    DeviceState,
>
    decreases payload.len(),
{
    if payload.len() == 0 {
        table
    } else {
        let end = position_of(payload, LINE_FEED);
        proof {
            lemma_position_of(payload, LINE_FEED);
        }
        with_lines(with_line(table, payload.subrange(0, end)), after_line(payload, end))
    }
}

/// What follows the line that ends at `end`: the bytes behind its line feed.
pub open spec fn after_line(payload: Seq<u8>, end: int) -> Seq<u8> {
    if end < payload.len() {
        payload.subrange(end + 1, payload.len() as int)
    } else {
        Seq::empty()
    }
}

/// The device table that a payload states.
pub open spec fn payload_table(payload: Seq<u8>) -> Map<Seq<char>, DeviceState> {
    with_lines(Map::empty(), payload)
}

/// The word of the server for a state. A state that the server named by
/// another word than the four known ones is written as `unknown`.
pub open spec fn word_of_state(state: DeviceState) -> Seq<u8> {
    match state {
        DeviceState::Online => ascii("online"@),
        DeviceState::Offline => ascii("offline"@),
        DeviceState::Unauthorized => ascii("unauthorized"@),
        DeviceState::Bootloader => ascii("bootloader"@),
        DeviceState::Other => ascii("unknown"@),
    }
}

/// The line for one device, with its line feed.
pub open spec fn line_of(identifier: Seq<char>, state: DeviceState) -> Seq<u8> {
    encode_utf8(identifier) + seq![TAB] + word_of_state(state) + seq![LINE_FEED]
}

/// The lines for the devices `identifiers` of `table`, in that order.
pub open spec fn lines_of(
    identifiers: Seq<Seq<char>>,
    table: Map<Seq<char>, DeviceState>,
) -> Seq<u8>
    decreases identifiers.len(),
{
    if identifiers.len() == 0 {
        Seq::empty()
    } else {
        line_of(identifiers[0], table[identifiers[0]]) + lines_of(identifiers.drop_first(), table)
    }
}

/// The payload that states `table`: one line for each device, in ascending
/// order of identifier.
pub open spec fn table_payload(table: Map<Seq<char>, DeviceState>) -> Seq<u8> {
    lines_of(ascending_list(table.dom()), table)
}

/// Whether an identifier can stand on a line: it is not empty and holds
/// neither a tab nor a line feed.
pub open spec fn wire_safe(identifier: Seq<char>) -> bool {
    &&& identifier.len() > 0
    &&& !identifier.contains('\t')
    &&& !identifier.contains('\n')
}

/// The position of a byte is the first place where it stands.
pub proof fn lemma_position_of(bytes: Seq<u8>, byte: u8)
    ensures
        0 <= position_of(bytes, byte) <= bytes.len(),
        forall|i: int| 0 <= i < position_of(bytes, byte) ==> bytes[i] != byte,
        position_of(bytes, byte) < bytes.len() ==> bytes[position_of(bytes, byte)] == byte,
    decreases bytes.len(),
{
    if bytes.len() != 0 && bytes[0] != byte {
        let rest = bytes.drop_first();
        lemma_position_of(rest, byte);
        assert forall|i: int| 0 <= i < position_of(bytes, byte) implies bytes[i] != byte by {
            if i > 0 {
                assert(rest[i - 1] == bytes[i]);
            }
        }
    }
}

/// The first place where a byte stands is its position.
pub proof fn lemma_position_is(bytes: Seq<u8>, byte: u8, at: int)
    requires
        0 <= at <= bytes.len(),
        forall|i: int| 0 <= i < at ==> bytes[i] != byte,
        at < bytes.len() ==> bytes[at] == byte,
    ensures
        position_of(bytes, byte) == at,
{
    lemma_position_of(bytes, byte);
}

/// In a payload that is valid UTF-8 each line is valid UTF-8, and so is what
/// follows the line.
pub proof fn lemma_lines_of_text_are_text(payload: Seq<u8>)
    requires
        valid_utf8(payload),
    ensures
        valid_utf8(payload.subrange(0, position_of(payload, LINE_FEED))),
        valid_utf8(after_line(payload, position_of(payload, LINE_FEED))),
{
    let end = position_of(payload, LINE_FEED);
    lemma_position_of(payload, LINE_FEED);
    if end < payload.len() {
        is_char_boundary_iff_not_is_continuation_byte(payload, end);
        valid_utf8_split(payload, end);
        let tail = payload.subrange(end, payload.len() as int);
        assert(tail[0] == LINE_FEED);
        assert(pop_first_scalar(tail) =~= after_line(payload, end));
    } else {
        assert(payload.subrange(0, end) =~= payload);
    }
}

/// A line that is valid UTF-8 is malformed only for want of a tab or of an
/// identifier before it.
pub proof fn lemma_line_of_text_is_well_formed(line: Seq<u8>)
    requires
        valid_utf8(line),
        0 < position_of(line, TAB) < line.len(),
    ensures
        line_record(line) is Some,
{
    let tab = position_of(line, TAB);
    lemma_position_of(line, TAB);
    is_char_boundary_iff_not_is_continuation_byte(line, tab);
    valid_utf8_split(line, tab);
}

/// Finds the first `byte` in `bytes`.
fn find(bytes: &[u8], byte: u8) -> (at: usize)
    ensures
        at == position_of(bytes@, byte),
{
    let mut at: usize = 0;
    while at < bytes.len() && bytes[at] != byte
        invariant
            at <= bytes@.len(),
            forall|i: int| 0 <= i < at ==> bytes@[i] != byte,
        decreases bytes@.len() - at,
    {
        at = at + 1;
    }
    proof {
        lemma_position_is(bytes@, byte, at as int);
    }
    at
}

/// Whether two byte strings are the same.
fn same_bytes(a: &[u8], b: &[u8]) -> (same: bool)
    ensures
        same == (a@ == b@),
{
    if a.len() != b.len() {
        return false;
    }
    let mut i: usize = 0;
    while i < a.len()
        invariant
            a@.len() == b@.len(),
            i <= a@.len(),
            forall|k: int| 0 <= k < i ==> a@[k] == b@[k],
        decreases a@.len() - i,
    {
        if a[i] != b[i] {
            return false;
        }
        i = i + 1;
    }
    assert(a@ =~= b@);
    true
}

/// Reads the word for a state.
pub fn parse_state(word: &[u8]) -> (state: DeviceState)
    ensures
        state == state_of_word(word@),
{
    let online = "online";
    let offline = "offline";
    let unauthorized = "unauthorized";
    let bootloader = "bootloader";
    proof {
        reveal_strlit("online");
        reveal_strlit("offline");
        reveal_strlit("unauthorized");
        reveal_strlit("bootloader");
        is_ascii_spec_bytes(online);
        is_ascii_spec_bytes(offline);
        is_ascii_spec_bytes(unauthorized);
        is_ascii_spec_bytes(bootloader);
    }
    if same_bytes(word, online.as_bytes()) {
        DeviceState::Online
    } else if same_bytes(word, offline.as_bytes()) {
        DeviceState::Offline
    } else if same_bytes(word, unauthorized.as_bytes()) {
        DeviceState::Unauthorized
    } else if same_bytes(word, bootloader.as_bytes()) {
        DeviceState::Bootloader
    } else {
        DeviceState::Other
    }
}

/// Reads one line, without its line feed.
pub fn parse_line(line: &[u8]) -> (record: Option<DeviceRecord>)
    ensures
        record is Some <==> line_record(line@) is Some,
        record matches Some(r) ==> (r.identifier@, r.state) == line_record(line@)->0,
{
    let tab = find(line, TAB);
    if tab == 0 || tab >= line.len() {
        return None;
    }
    match decode_text(slice_to_vec(slice_subrange(line, 0, tab))) {
        Some(identifier) => {
            let state = parse_state(slice_subrange(line, tab + 1, line.len()));
            Some(DeviceRecord { identifier, state })
        },
        None => None,
    }
}

/// Reads the payload of a tracking frame into a device table.
pub fn parse_payload(payload: &[u8]) -> (table: DeviceTable)
    ensures
        table.wf(),
        table@ == payload_table(payload@),
{
    let mut table = DeviceTable::new();
    let mut rest: &[u8] = payload;
    while rest.len() > 0
        invariant
            table.wf(),
            with_lines(table@, rest@) == payload_table(payload@),
        decreases rest@.len(),
    {
        let end = find(rest, LINE_FEED);
        let ghost before = table@;
        let ghost unread = rest@;
        proof {
            lemma_position_of(rest@, LINE_FEED);
        }
        match parse_line(slice_subrange(rest, 0, end)) {
            Some(record) => {
                table.insert(record.identifier, record.state);
            },
            None => {},
        }
        if end < rest.len() {
            rest = slice_subrange(rest, end + 1, rest.len());
        } else {
            rest = slice_subrange(rest, end, end);
        }
        assert(table@ == with_line(before, unread.subrange(0, end as int)));
        assert(rest@ =~= after_line(unread, end as int));
    }
    table
}

/// The word of the server for a state.
fn state_word(state: DeviceState) -> (word: &'static str)
    ensures
        encode_utf8(word@) == word_of_state(state),
{
    proof {
        reveal_strlit("online");
        reveal_strlit("offline");
        reveal_strlit("unauthorized");
        reveal_strlit("bootloader");
        reveal_strlit("unknown");
    }
    let word = match state {
        DeviceState::Online => "online",
        DeviceState::Offline => "offline",
        DeviceState::Unauthorized => "unauthorized",
        DeviceState::Bootloader => "bootloader",
        DeviceState::Other => "unknown",
    };
    proof {
        is_ascii_spec_bytes(word);
    }
    word
}

/// Writes the payload that states `table`.
pub fn encode_table(table: &DeviceTable) -> (payload: Vec<u8>)
    requires
        table.wf(),
    ensures
        payload@ == table_payload(table@),
{
    let records = table.records();
    let ghost ids = identifiers_of(table.listing());
    let mut payload: Vec<u8> = Vec::new();
    let mut i: usize = 0;
    assert(ids.subrange(0, 0) =~= Seq::<Seq<char>>::empty());
    while i < records.len()
        invariant
            table.wf(),
            records@ == table.listing(),
            ids == identifiers_of(table.listing()),
            i <= records@.len(),
            payload@ == lines_of(ids.subrange(0, i as int), table@),
        decreases records@.len() - i,
    {
        let record = &records[i];
        let ghost before = payload@;
        payload.extend_from_slice(record.identifier.as_str().as_bytes());
        payload.push(TAB);
        payload.extend_from_slice(state_word(record.state).as_bytes());
        payload.push(LINE_FEED);
        proof {
            lemma_table_entry(table.listing(), i as int);
            assert(ids[i as int] == record.identifier@);
            assert(payload@ =~= before + line_of(ids[i as int], table@[ids[i as int]]));
            lemma_lines_of_push(ids.subrange(0, i as int), ids[i as int], table@);
            assert(ids.subrange(0, i as int).push(ids[i as int]) =~= ids.subrange(0, i + 1));
        }
        i = i + 1;
    }
    proof {
        assert(ids.subrange(0, i as int) =~= ids);
        lemma_table_identifiers(table.listing());
    }
    payload
}

/// The lines for a list with one more identifier end with the line for it.
proof fn lemma_lines_of_push(
    identifiers: Seq<Seq<char>>,
    identifier: Seq<char>,
    table: Map<Seq<char>, DeviceState>,
)
    ensures
        lines_of(identifiers.push(identifier), table) == lines_of(identifiers, table) + line_of(
            identifier,
            table[identifier],
        ),
    decreases identifiers.len(),
{
    let longer = identifiers.push(identifier);
    if identifiers.len() == 0 {
        assert(longer.drop_first() =~= Seq::<Seq<char>>::empty());
        assert(lines_of(longer.drop_first(), table) =~= Seq::<u8>::empty());
        assert(lines_of(longer, table) =~= line_of(identifier, table[identifier]));
        assert(lines_of(identifiers, table) + line_of(identifier, table[identifier]) =~= line_of(
            identifier,
            table[identifier],
        ));
    } else {
        assert(longer.drop_first() =~= identifiers.drop_first().push(identifier));
        lemma_lines_of_push(identifiers.drop_first(), identifier, table);
        assert(lines_of(longer, table) =~= lines_of(identifiers, table) + line_of(
            identifier,
            table[identifier],
        ));
    }
}

/// The encoding of a character holds an ASCII byte only where the character
/// is that byte.
proof fn lemma_scalar_keeps_ascii_out(c: char, byte: u8)
    requires
        byte < 0x80,
        c != byte as char,
    ensures
        encode_scalar(c as u32).len() > 0,
        !encode_scalar(c as u32).contains(byte),
{
    let v = c as u32;
    char_is_scalar(c);
    let bytes = encode_scalar(v);
    if has_width_1_encoding(v) {
        assert(leading_byte_width_1(v) == v) by (bit_vector)
            requires
                has_width_1_encoding(v),
        ;
        if bytes.contains(byte) {
            assert(bytes[0] == byte);
            assert(v == byte as u32);
            char_u32_cast(c, v);
        }
    } else {
        assert(leading_byte_width_2(v) >= 0x80 && leading_byte_width_3(v) >= 0x80
            && leading_byte_width_4(v) >= 0x80 && last_continuation_byte(v) >= 0x80
            && second_last_continuation_byte(v) >= 0x80 && third_last_continuation_byte(v)
            >= 0x80) by (bit_vector);
        if bytes.contains(byte) {
            let i = choose|i: int| 0 <= i < bytes.len() && bytes[i] == byte;
            assert(bytes[i] >= 0x80);
        }
    }
}

/// The encoding of a text holds an ASCII byte only where the text holds the
/// character that is this byte.
proof fn lemma_encoding_keeps_ascii_out(text: Seq<char>, byte: u8)
    requires
        byte < 0x80,
        !text.contains(byte as char),
    ensures
        !encode_utf8(text).contains(byte),
        text.len() > 0 ==> encode_utf8(text).len() > 0,
    decreases text.len(),
{
    if text.len() > 0 {
        let rest = text.drop_first();
        assert(text[0] != byte as char) by {
            if text[0] == byte as char {
                assert(text.contains(text[0]));
            }
        }
        assert(!rest.contains(byte as char)) by {
            if rest.contains(byte as char) {
                let i = choose|i: int| 0 <= i < rest.len() && rest[i] == byte as char;
                assert(text[i + 1] == byte as char);
            }
        }
        lemma_scalar_keeps_ascii_out(text[0], byte);
        lemma_encoding_keeps_ascii_out(rest, byte);
        let head = encode_scalar(text[0] as u32);
        let tail = encode_utf8(rest);
        if (head + tail).contains(byte) {
            let i = choose|i: int| 0 <= i < (head + tail).len() && (head + tail)[i] == byte;
            if i < head.len() {
                assert(head[i] == byte);
            } else {
                assert(tail[i - head.len()] == byte);
            }
        }
    }
}

/// The word for a state holds no line feed, and reads back as the state.
proof fn lemma_word_of_state(state: DeviceState)
    ensures
        !word_of_state(state).contains(LINE_FEED),
        state_of_word(word_of_state(state)) == state,
{
    reveal_strlit("online");
    reveal_strlit("offline");
    reveal_strlit("unauthorized");
    reveal_strlit("bootloader");
    reveal_strlit("unknown");
    let word = word_of_state(state);
    if word.contains(LINE_FEED) {
        let i = choose|i: int| 0 <= i < word.len() && word[i] == LINE_FEED;
        assert(word[i] != LINE_FEED);
    }
    assert(ascii("online"@).len() == 6);
    assert(ascii("offline"@).len() == 7);
    assert(ascii("unauthorized"@).len() == 12);
    assert(ascii("bootloader"@).len() == 10);
    assert(ascii("unknown"@).len() == 7);
    assert(ascii("offline"@)[0] != ascii("unknown"@)[0]);
}

/// The line for a device, without its line feed, reads back as the device.
proof fn lemma_line_round_trip(identifier: Seq<char>, state: DeviceState)
    requires
        wire_safe(identifier),
    ensures
        line_record(encode_utf8(identifier) + seq![TAB] + word_of_state(state)) == Some(
            (identifier, state),
        ),
{
    let name = encode_utf8(identifier);
    let word = word_of_state(state);
    let body = name + seq![TAB] + word;
    assert('\t' == TAB as char);
    lemma_encoding_keeps_ascii_out(identifier, TAB);
    assert forall|i: int| 0 <= i < name.len() implies body[i] != TAB by {
        assert(body[i] == name[i]);
        assert(name.contains(name[i]));
    }
    assert(body[name.len() as int] == TAB);
    lemma_position_is(body, TAB, name.len() as int);
    assert(body.subrange(0, name.len() as int) =~= name);
    assert(body.subrange(name.len() as int + 1, body.len() as int) =~= word);
    encode_utf8_valid_utf8(identifier);
    encode_utf8_decode_utf8(identifier);
    lemma_word_of_state(state);
}

/// The identifiers of `identifiers` put into `table`, each with the state
/// that `source` holds for it.
pub open spec fn with_devices(
    table: Map<Seq<char>, DeviceState>,
    identifiers: Seq<Seq<char>>,
    source: Map<Seq<char>, DeviceState>,
) -> Map<Seq<char>, DeviceState>
    decreases identifiers.len(),
{
    if identifiers.len() == 0 {
        table
    } else {
        with_devices(
            table.insert(identifiers[0], source[identifiers[0]]),
            identifiers.drop_first(),
            source,
        )
    }
}

/// Reading the lines for some devices puts these devices into the table.
proof fn lemma_lines_round_trip(
    table: Map<Seq<char>, DeviceState>,
    identifiers: Seq<Seq<char>>,
    source: Map<Seq<char>, DeviceState>,
)
    requires
        forall|i: int| 0 <= i < identifiers.len() ==> wire_safe(#[trigger] identifiers[i]),
    ensures
        with_lines(table, lines_of(identifiers, source)) == with_devices(
            table,
            identifiers,
            source,
        ),
    decreases identifiers.len(),
{
    if identifiers.len() > 0 {
        let identifier = identifiers[0];
        let state = source[identifier];
        let name = encode_utf8(identifier);
        let word = word_of_state(state);
        let body = name + seq![TAB] + word;
        let rest = lines_of(identifiers.drop_first(), source);
        let payload = lines_of(identifiers, source);
        assert(wire_safe(identifier));
        assert(payload =~= body + seq![LINE_FEED] + rest);
        assert('\n' == LINE_FEED as char);
        lemma_encoding_keeps_ascii_out(identifier, LINE_FEED);
        lemma_word_of_state(state);
        assert forall|i: int| 0 <= i < body.len() implies payload[i] != LINE_FEED by {
            if i < name.len() {
                assert(payload[i] == name[i]);
                assert(name.contains(name[i]));
            } else if i > name.len() {
                assert(payload[i] == word[i - name.len() - 1]);
                assert(word.contains(word[i - name.len() - 1]));
            }
        }
        assert(payload[body.len() as int] == LINE_FEED);
        lemma_position_is(payload, LINE_FEED, body.len() as int);
        assert(payload.subrange(0, body.len() as int) =~= body);
        assert(after_line(payload, body.len() as int) =~= rest);
        lemma_line_round_trip(identifier, state);
        assert forall|i: int| 0 <= i < identifiers.drop_first().len() implies wire_safe(
            #[trigger] identifiers.drop_first()[i],
        ) by {
            assert(identifiers.drop_first()[i] == identifiers[i + 1]);
        }
        lemma_lines_round_trip(table.insert(identifier, state), identifiers.drop_first(), source);
    }
}

/// What a table holds after devices were put into it.
proof fn lemma_with_devices(
    table: Map<Seq<char>, DeviceState>,
    identifiers: Seq<Seq<char>>,
    source: Map<Seq<char>, DeviceState>,
    identifier: Seq<char>,
)
    ensures
        with_devices(table, identifiers, source).contains_key(identifier) <==> (
        table.contains_key(identifier) || identifiers.contains(identifier)),
        identifiers.contains(identifier) ==> with_devices(table, identifiers, source)[identifier]
            == source[identifier],
        !identifiers.contains(identifier) && table.contains_key(identifier) ==> with_devices(
            table,
            identifiers,
            source,
        )[identifier] == table[identifier],
    decreases identifiers.len(),
{
    if identifiers.len() > 0 {
        let first = identifiers[0];
        let rest = identifiers.drop_first();
        let next = table.insert(first, source[first]);
        lemma_with_devices(next, rest, source, identifier);
        assert(identifiers.contains(first));
        if identifiers.contains(identifier) {
            let i = choose|i: int| 0 <= i < identifiers.len() && identifiers[i] == identifier;
            if i > 0 {
                assert(rest[i - 1] == identifier);
            }
        }
        if rest.contains(identifier) {
            let i = choose|i: int| 0 <= i < rest.len() && rest[i] == identifier;
            assert(identifiers[i + 1] == identifier);
        }
    }
}

/// A table that is written as a payload and read again is the same table,
/// provided that each of its identifiers can stand on a line.
pub proof fn lemma_payload_round_trip(table: Map<Seq<char>, DeviceState>)
    requires
        table.dom().finite(),
        forall|identifier: Seq<char>| table.contains_key(identifier) ==> wire_safe(identifier),
    ensures
        payload_table(table_payload(table)) == table,
{
    let ids = ascending_list(table.dom());
    lemma_ascending_list_lists(table.dom());
    assert forall|i: int| 0 <= i < ids.len() implies wire_safe(#[trigger] ids[i]) by {
        assert(ids.contains(ids[i]));
    }
    lemma_lines_round_trip(Map::empty(), ids, table);
    let read = with_devices(Map::empty(), ids, table);
    assert forall|identifier: Seq<char>| read.contains_key(identifier) <==> table.contains_key(
        identifier,
    ) by {
        lemma_with_devices(Map::empty(), ids, table, identifier);
    }
    assert forall|identifier: Seq<char>| #[trigger]
        read.contains_key(identifier) implies read[identifier] == table[identifier] by {
        lemma_with_devices(Map::empty(), ids, table, identifier);
    }
    assert(read =~= table);
}

/// A device table that is written as a payload and read again is the same
/// table, provided that each of its identifiers can stand on a line.
pub proof fn lemma_table_round_trip(table: DeviceTable)
    requires
        table.wf(),
        forall|identifier: Seq<char>|
            table@.contains_key(identifier) ==> wire_safe(identifier),
    ensures
        payload_table(table_payload(table@)) == table@,
{
    lemma_table_size(table.listing());
    lemma_payload_round_trip(table@);
}

} // verus!
