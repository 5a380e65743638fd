//! How a project is written to disk: a header with a checksum before the bytes of its state.

use vstd::prelude::*;

use crate::encoding::append_bytes;
use crate::identifier::{parsed_identifier, read_identifier, write_identifier};
use crate::text::same;

verus! {

/// The version of the format.
pub const VERSION: u32 = 1;

/// The bytes before the body: the mark, the version, the length and the checksum.
pub const HEADER_BYTES: usize = 52;

/// The most bytes of a body.
pub const MAX_STATE_BYTES: usize = 536_870_912;

/// Where saved versions lie, below the project.
pub const VERSIONS_DIRECTORY: &'static str = "versions";

/// The ending of the names of files.
pub const EXTENSION: &'static str = "khr";

/// The hash of bytes.
pub uninterp spec fn blake3_bytes(bytes: Seq<u8>) -> Seq<u8>;

/// `blake3::hash`, as bytes: they depend on the input alone, and there are 32 of them.
#[verifier::external_body]
fn blake3_hash(bytes: &Vec<u8>) -> (result: Vec<u8>)
    ensures
        result@ == blake3_bytes(bytes@),
        result.len() == 32,
{
    blake3::hash(bytes).as_bytes().to_vec()
}

/// The checksum of a body.
pub open spec fn checksum(body: Seq<u8>) -> Seq<u8> {
    Seq::new(32, |i: int| blake3_bytes(body)[i])
}

/// Identifies a blob; blobs are ordered by their bytes.
#[derive(Clone, Copy, Debug, PartialEq, Eq, Structural)]
pub struct BlobId {
    pub high: u128,
    pub low: u128,
}

impl BlobId {
    /// One blob stands before another.
    pub open spec fn precedes(self, other: BlobId) -> bool {
        self.high < other.high || (self.high == other.high && self.low < other.low)
    }

    pub fn is_before(self, other: BlobId) -> (result: bool)
        ensures
            result == self.precedes(other),
    {
        self.high < other.high || (self.high == other.high && self.low < other.low)
    }
}

/// What is kept of a project.
#[derive(Debug)]
pub struct StoredState {
    pub document: u128,
    pub revision: u64,
    pub blobs: Vec<BlobId>,
    pub payload: Vec<u8>,
}

/// A saved version of a project.
#[derive(Debug)]
pub struct StoredVersion {
    pub id: u128,
    pub name: String,
    pub created_at_ms: u64,
    pub state: StoredState,
}

/// One of the two files that hold the state by turns.
#[derive(Clone, Copy, Debug, PartialEq, Eq, Structural)]
pub enum Slot {
    A,
    B,
}

impl Slot {
    pub open spec fn opposite(self) -> Slot {
        match self {
            Slot::A => Slot::B,
            Slot::B => Slot::A,
        }
    }

    /// The slot that the next state is written to.
    pub fn other(self) -> (result: Slot)
        ensures
            result == self.opposite(),
    {
        match self {
            Slot::A => Slot::B,
            Slot::B => Slot::A,
        }
    }

    pub open spec fn text(self) -> Seq<char> {
        match self {
            Slot::A => "state-a.khr"@,
            Slot::B => "state-b.khr"@,
        }
    }

    pub fn filename(self) -> (result: &'static str)
        ensures
            result@ == self.text(),
    {
        match self {
            Slot::A => "state-a.khr",
            Slot::B => "state-b.khr",
        }
    }
}

/// The slots take turns, and never share a file.
pub proof fn law_slots_take_turns(slot: Slot)
    ensures
        slot.opposite() != slot,
        slot.opposite().opposite() == slot,
        slot.opposite().text() != slot.text(),
{
    reveal_strlit("state-a.khr");
    reveal_strlit("state-b.khr");
    assert("state-a.khr"@[6] != "state-b.khr"@[6]);
}

/// What a file holds.
#[derive(Clone, Copy, Debug, PartialEq, Eq, Structural)]
pub enum Content {
    State,
    Version,
}

/// What is wrong with a file, or with what should be written to one.
pub enum Problem {
    NotAProject,
    UnsupportedFormat(u32),
    Invalid(Seq<char>),
}

/// Why a file cannot be read or written.
#[derive(Debug)]
pub enum FormatError {
    NotAProject,
    UnsupportedFormat(u32),
    Invalid(&'static str),
}

impl View for FormatError {
    type V = Problem;

    open spec fn view(&self) -> Problem {
        match *self {
            FormatError::NotAProject => Problem::NotAProject,
            FormatError::UnsupportedFormat(version) => Problem::UnsupportedFormat(version),
            FormatError::Invalid(message) => Problem::Invalid(message@),
        }
    }
}

impl Content {
    /// The bytes that a file begins with.
    pub open spec fn mark(self) -> Seq<u8> {
        match self {
            Content::State => seq![75u8, 72u8, 82u8, 83u8, 84u8, 65u8, 84u8, 69u8],
            Content::Version => seq![75u8, 72u8, 82u8, 86u8, 69u8, 82u8, 83u8, 78u8],
        }
    }

    fn magic(self) -> (result: [u8; 8])
        ensures
            result@ == self.mark(),
    {
        match self {
            Content::State => [75u8, 72u8, 82u8, 83u8, 84u8, 65u8, 84u8, 69u8],
            Content::Version => [75u8, 72u8, 82u8, 86u8, 69u8, 82u8, 83u8, 78u8],
        }
    }

    pub open spec fn bad_mark(self) -> Problem {
        match self {
            Content::State => Problem::NotAProject,
            Content::Version => Problem::Invalid("project version header is invalid"@),
        }
    }

    pub open spec fn oversized(self) -> Seq<char> {
        match self {
            Content::State => "state exceeds the maximum encoded size"@,
            Content::Version => "project version exceeds the maximum encoded size"@,
        }
    }

    pub open spec fn unfit(self) -> Seq<char> {
        match self {
            Content::State => "state length does not fit this platform"@,
            Content::Version => "project version length does not fit this platform"@,
        }
    }

    pub open spec fn bad_length(self) -> Seq<char> {
        match self {
            Content::State => "state length is invalid"@,
            Content::Version => "project version length is invalid"@,
        }
    }

    pub open spec fn mismatch(self) -> Seq<char> {
        match self {
            Content::State => "state checksum mismatch"@,
            Content::Version => "project version checksum mismatch"@,
        }
    }
}

/// A number as bytes, the lowest first.
pub open spec fn number_bytes(number: nat, count: nat) -> Seq<u8>
    decreases count,
{
    if count == 0 {
        Seq::empty()
    } else {
        seq![(number % 256) as u8] + number_bytes(number / 256, (count - 1) as nat)
    }
}

/// The number that bytes stand for, the lowest first.
pub open spec fn bytes_number(bytes: Seq<u8>) -> nat
    decreases bytes.len(),
{
    if bytes.len() == 0 {
        0
    } else {
        bytes[0] as nat + 256 * bytes_number(bytes.skip(1))
    }
}

/// How many numbers some bytes can stand for.
pub open spec fn number_limit(count: nat) -> nat
    decreases count,
{
    if count == 0 {
        1
    } else {
        256 * number_limit((count - 1) as nat)
    }
}

proof fn lemma_number_bytes(number: nat, count: nat)
    ensures
        number_bytes(number, count).len() == count,
        number < number_limit(count) ==> bytes_number(number_bytes(number, count)) == number,
    decreases count,
{
    if count > 0 {
        let less = (count - 1) as nat;
        lemma_number_bytes(number / 256, less);
        assert(number_bytes(number, count).skip(1) =~= number_bytes(number / 256, less));
    }
}

proof fn lemma_number_limit(bytes: Seq<u8>)
    ensures
        bytes_number(bytes) < number_limit(bytes.len()),
    decreases bytes.len(),
{
    if bytes.len() > 0 {
        lemma_number_limit(bytes.skip(1));
    }
}

fn push_number(bytes: &mut Vec<u8>, number: u64, count: usize)
    ensures
        final(bytes)@ == old(bytes)@ + number_bytes(number as nat, count as nat),
{
    let mut rest: u64 = number;
    let mut done: usize = 0;
    proof {
        assert(number_bytes(number as nat, count as nat) =~= bytes@.skip(bytes@.len() as int)
            + number_bytes(number as nat, count as nat));
        assert(bytes@ + number_bytes(number as nat, count as nat) =~= old(bytes)@ + number_bytes(
            number as nat,
            count as nat,
        ));
    }
    while done < count
        invariant
            done <= count,
            bytes@ + number_bytes(rest as nat, (count - done) as nat) == old(bytes)@
                + number_bytes(number as nat, count as nat),
        decreases count - done,
    {
        let ghost before = bytes@;
        let ghost left = (count - done) as nat;
        proof {
            assert(number_bytes(rest as nat, left) == seq![(rest as nat % 256) as u8]
                + number_bytes(rest as nat / 256, (left - 1) as nat));
        }
        bytes.push((rest % 256) as u8);
        rest = rest / 256;
        done += 1;
        proof {
            assert(bytes@ + number_bytes(rest as nat, (count - done) as nat) =~= before
                + number_bytes(((rest as nat) * 256 + bytes@.last() as nat) as nat, left)) by {
                let whole = (rest as nat) * 256 + bytes@.last() as nat;
                assert(whole % 256 == bytes@.last() as nat);
                assert(whole / 256 == rest as nat);
                assert(number_bytes(whole, left) == seq![(whole % 256) as u8] + number_bytes(
                    whole / 256,
                    (left - 1) as nat,
                ));
            }
        }
    }
    proof {
        assert(bytes@ + number_bytes(rest as nat, 0) =~= bytes@);
    }
}

fn read_number(bytes: &Vec<u8>, from: usize, count: usize) -> (result: u64)
    requires
        from + count <= bytes.len(),
        count <= 8,
    ensures
        result == bytes_number(bytes@.subrange(from as int, from + count)),
{
    let mut result: u64 = 0;
    let mut index: usize = count;
    proof {
        assert(bytes@.subrange(from + count, from + count).len() == 0);
    }
    while index > 0
        invariant
            index <= count <= 8,
            from + count <= bytes.len(),
            result == bytes_number(bytes@.subrange(from + index, from + count)),
        decreases index,
    {
        let ghost tail = bytes@.subrange(from + index, from + count);
        proof {
            lemma_number_limit(tail);
            assert(number_limit(tail.len()) <= 72_057_594_037_927_936) by {
                assert(tail.len() <= 7);
                reveal_with_fuel(number_limit, 9);
            }
        }
        index -= 1;
        result = result * 256 + bytes[from + index] as u64;
        proof {
            let longer = bytes@.subrange(from + index, from + count);
            assert(longer.skip(1) =~= tail);
            assert(longer[0] == bytes@[from + index]);
        }
    }
    result
}

/// A file with a body.
pub open spec fn framed(content: Content, body: Seq<u8>) -> Seq<u8> {
    content.mark() + number_bytes(VERSION as nat, 4) + number_bytes(body.len(), 8) + checksum(body)
        + body
}

/// What is wrong with a file, if anything is.
pub open spec fn file_problem(content: Content, encoded: Seq<u8>) -> Option<Problem> {
    let version = bytes_number(encoded.subrange(8, 12));
    let length = bytes_number(encoded.subrange(12, 20));
    if encoded.len() < HEADER_BYTES || encoded.take(8) != content.mark() {
        Some(content.bad_mark())
    } else if version != VERSION {
        Some(Problem::UnsupportedFormat(version as u32))
    } else if length > usize::MAX {
        Some(Problem::Invalid(content.unfit()))
    } else if length > MAX_STATE_BYTES || encoded.len() != HEADER_BYTES + length {
        Some(Problem::Invalid(content.bad_length()))
    } else if checksum(encoded.skip(HEADER_BYTES as int)) != encoded.subrange(20, 52) {
        Some(Problem::Invalid(content.mismatch()))
    } else {
        None
    }
}

/// What was written is read back: a file that was made of a body holds nothing wrong, and its body
/// is that body.
pub proof fn law_files_are_read_back(content: Content, body: Seq<u8>)
    requires
        body.len() <= MAX_STATE_BYTES,
    ensures
        file_problem(content, framed(content, body)) is None,
        framed(content, body).skip(HEADER_BYTES as int) == body,
{
    let file = framed(content, body);
    lemma_number_bytes(VERSION as nat, 4);
    lemma_number_bytes(body.len(), 8);
    reveal_with_fuel(number_limit, 9);
    assert(file.len() == HEADER_BYTES + body.len());
    assert(file.take(8) =~= content.mark());
    assert(file.subrange(8, 12) =~= number_bytes(VERSION as nat, 4));
    assert(file.subrange(12, 20) =~= number_bytes(body.len(), 8));
    assert(file.subrange(20, 52) =~= checksum(body));
    assert(file.skip(52) =~= body);
}

/// A file of one content is not taken for one of the other.
pub proof fn law_contents_are_told_apart(content: Content, other: Content, body: Seq<u8>)
    requires
        content != other,
    ensures
        file_problem(other, framed(content, body)) == Some(other.bad_mark()),
{
    let file = framed(content, body);
    assert(file.take(8) =~= content.mark());
    assert(content.mark()[3] != other.mark()[3]);
}

/// A file that was cut short is not read.
pub proof fn law_short_files_are_refused(content: Content, body: Seq<u8>, kept: int)
    requires
        body.len() <= MAX_STATE_BYTES,
        0 <= kept < framed(content, body).len(),
    ensures
        file_problem(content, framed(content, body).take(kept)) is Some,
{
    let file = framed(content, body);
    let cut = file.take(kept);
    lemma_number_bytes(VERSION as nat, 4);
    lemma_number_bytes(body.len(), 8);
    reveal_with_fuel(number_limit, 9);
    if kept >= HEADER_BYTES {
        assert(cut.subrange(12, 20) =~= number_bytes(body.len(), 8));
    }
}

fn frame(content: Content, body: &Vec<u8>) -> (result: Vec<u8>)
    requires
        body.len() <= MAX_STATE_BYTES,
    ensures
        result@ == framed(content, body@),
{
    let mut result: Vec<u8> = Vec::new();
    let magic = content.magic();
    let mut index: usize = 0;
    while index < 8
        invariant
            index <= 8,
            magic@ == content.mark(),
            result@ == magic@.take(index as int),
        decreases 8 - index,
    {
        result.push(magic[index]);
        index += 1;
        proof {
            assert(result@ =~= magic@.take(index as int));
        }
    }
    proof {
        assert(magic@.take(8) =~= content.mark());
    }
    push_number(&mut result, VERSION as u64, 4);
    push_number(&mut result, body.len() as u64, 8);
    let hash = blake3_hash(body);
    append_bytes(&mut result, &hash, hash.len());
    append_bytes(&mut result, body, body.len());
    proof {
        assert(hash@.take(32) =~= checksum(body@));
        assert(body@.take(body@.len() as int) =~= body@);
    }
    result
}

fn unframe(content: Content, encoded: &Vec<u8>) -> (result: Result<Vec<u8>, FormatError>)
    ensures
        match file_problem(content, encoded@) {
            Some(problem) => result matches Err(error) && error@ == problem,
            None => result matches Ok(body) && body@ == encoded@.skip(HEADER_BYTES as int),
        },
{
    let bad_mark = match content {
        Content::State => FormatError::NotAProject,
        Content::Version => FormatError::Invalid("project version header is invalid"),
    };
    if encoded.len() < HEADER_BYTES {
        return Err(bad_mark);
    }
    let magic = content.magic();
    let mut index: usize = 0;
    while index < 8
        invariant
            index <= 8,
            HEADER_BYTES <= encoded.len(),
            magic@ == content.mark(),
            bad_mark@ == content.bad_mark(),
            forall|i: int| 0 <= i < index ==> #[trigger] encoded@[i] == content.mark()[i],
        decreases 8 - index,
    {
        if encoded[index] != magic[index] {
            proof {
                assert(encoded@.take(8)[index as int] != content.mark()[index as int]);
            }
            return Err(bad_mark);
        }
        index += 1;
    }
    proof {
        assert(encoded@.take(8) =~= content.mark());
        reveal_with_fuel(number_limit, 9);
        lemma_number_limit(encoded@.subrange(8, 12));
    }
    let version: u64 = read_number(encoded, 8, 4);
    if version != VERSION as u64 {
        return Err(FormatError::UnsupportedFormat(version as u32));
    }
    let length: u64 = read_number(encoded, 12, 8);
    if length > usize::MAX as u64 {
        return Err(
            FormatError::Invalid(
                match content {
                    Content::State => "state length does not fit this platform",
                    Content::Version => "project version length does not fit this platform",
                },
            ),
        );
    }
    let length: usize = length as usize;
    if length > MAX_STATE_BYTES || encoded.len() != HEADER_BYTES + length {
        return Err(
            FormatError::Invalid(
                match content {
                    Content::State => "state length is invalid",
                    Content::Version => "project version length is invalid",
                },
            ),
        );
    }
    let mut body: Vec<u8> = Vec::new();
    let mut index: usize = HEADER_BYTES;
    while index < encoded.len()
        invariant
            HEADER_BYTES <= index <= encoded.len(),
            body@ == encoded@.subrange(HEADER_BYTES as int, index as int),
        decreases encoded.len() - index,
    {
        body.push(encoded[index]);
        index += 1;
        proof {
            assert(body@ =~= encoded@.subrange(HEADER_BYTES as int, index as int));
        }
    }
    proof {
        assert(body@ =~= encoded@.skip(HEADER_BYTES as int));
    }
    let hash = blake3_hash(&body);
    proof {
        assert(hash@ =~= checksum(body@));
    }
    let mut index: usize = 0;
    while index < 32
        invariant
            index <= 32,
            hash.len() == 32,
            HEADER_BYTES <= encoded.len(),
            hash@ == checksum(body@),
            body@ == encoded@.skip(HEADER_BYTES as int),
            file_problem(content, encoded@) == (if checksum(body@) != encoded@.subrange(20, 52) {
                Some(Problem::Invalid(content.mismatch()))
            } else {
                None
            }),
            forall|i: int| 0 <= i < index ==> #[trigger] hash@[i] == encoded@[20 + i],
        decreases 32 - index,
    {
        if hash[index] != encoded[20 + index] {
            proof {
                assert(encoded@.subrange(20, 52)[index as int] != hash@[index as int]);
            }
            return Err(
                FormatError::Invalid(
                    match content {
                        Content::State => "state checksum mismatch",
                        Content::Version => "project version checksum mismatch",
                    },
                ),
            );
        }
        index += 1;
    }
    proof {
        assert(encoded@.subrange(20, 52) =~= hash@);
    }
    Ok(body)
}

/// The blobs of a state stand in order, none twice.
pub open spec fn blobs_in_order(blobs: Seq<BlobId>) -> bool {
    forall|i: int, j: int|
        0 <= i < j < blobs.len() ==> (#[trigger] blobs[i]).precedes(#[trigger] blobs[j])
}

/// What is wrong with a state, if anything is.
pub open spec fn state_problem(state: StoredState) -> Option<Problem> {
    if state.payload.len() > MAX_STATE_BYTES {
        Some(Problem::Invalid("scene payload exceeds the maximum size"@))
    } else if !blobs_in_order(state.blobs@) {
        Some(Problem::Invalid("state blob IDs are not sorted and unique"@))
    } else {
        None
    }
}

/// Checks a state before it is written and after it was read.
pub fn validate(state: &StoredState) -> (result: Result<(), FormatError>)
    ensures
        match state_problem(*state) {
            Some(problem) => result matches Err(error) && error@ == problem,
            None => result is Ok,
        },
{
    if state.payload.len() > MAX_STATE_BYTES {
        return Err(FormatError::Invalid("scene payload exceeds the maximum size"));
    }
    let mut index: usize = 1;
    while index < state.blobs.len()
        invariant
            1 <= index,
            state.payload.len() <= MAX_STATE_BYTES,
            index <= state.blobs.len() || state.blobs.len() == 0,
            forall|i: int, j: int|
                0 <= i < j < index && j < state.blobs.len() ==> (#[trigger] state.blobs@[i]).precedes(
                    #[trigger] state.blobs@[j],
                ),
        decreases state.blobs.len() - index,
    {
        if !state.blobs[index - 1].is_before(state.blobs[index]) {
            proof {
                assert(!state.blobs@[index - 1].precedes(state.blobs@[index as int]));
            }
            return Err(FormatError::Invalid("state blob IDs are not sorted and unique"));
        }
        proof {
            assert forall|i: int| 0 <= i < index implies (#[trigger] state.blobs@[i]).precedes(
                state.blobs@[index as int],
            ) by {
                if i < index - 1 {
                    assert(state.blobs@[i].precedes(state.blobs@[index - 1]));
                }
            }
        }
        index += 1;
    }
    Ok(())
}

/// What keeps a state from being written.
pub open spec fn write_problem(content: Content, state: StoredState, body: Seq<u8>) -> Option<
    Problem,
> {
    match state_problem(state) {
        Some(problem) => Some(problem),
        None => if body.len() > MAX_STATE_BYTES {
            Some(Problem::Invalid(content.oversized()))
        } else {
            None
        },
    }
}

/// The file of a state; `body` is the state as bytes.
pub fn encode(state: &StoredState, body: &Vec<u8>) -> (result: Result<Vec<u8>, FormatError>)
    ensures
        match write_problem(Content::State, *state, body@) {
            Some(problem) => result matches Err(error) && error@ == problem,
            None => result matches Ok(file) && file@ == framed(Content::State, body@),
        },
{
    match validate(state) {
        Ok(()) => {},
        Err(error) => return Err(error),
    }
    if body.len() > MAX_STATE_BYTES {
        return Err(FormatError::Invalid("state exceeds the maximum encoded size"));
    }
    Ok(frame(Content::State, body))
}

/// The bytes of the state in a file.
pub fn decode(encoded: &Vec<u8>) -> (result: Result<Vec<u8>, FormatError>)
    ensures
        match file_problem(Content::State, encoded@) {
            Some(problem) => result matches Err(error) && error@ == problem,
            None => result matches Ok(body) && body@ == encoded@.skip(HEADER_BYTES as int),
        },
{
    unframe(Content::State, encoded)
}

/// The file of a saved version; `body` is the version as bytes.
pub fn encode_version(version: &StoredVersion, body: &Vec<u8>) -> (result: Result<
    Vec<u8>,
    FormatError,
>)
    ensures
        match write_problem(Content::Version, version.state, body@) {
            Some(problem) => result matches Err(error) && error@ == problem,
            None => result matches Ok(file) && file@ == framed(Content::Version, body@),
        },
{
    match validate(&version.state) {
        Ok(()) => {},
        Err(error) => return Err(error),
    }
    if body.len() > MAX_STATE_BYTES {
        return Err(FormatError::Invalid("project version exceeds the maximum encoded size"));
    }
    Ok(frame(Content::Version, body))
}

/// The bytes of the saved version in a file.
pub fn decode_version(encoded: &Vec<u8>) -> (result: Result<Vec<u8>, FormatError>)
    ensures
        match file_problem(Content::Version, encoded@) {
            Some(problem) => result matches Err(error) && error@ == problem,
            None => result matches Ok(body) && body@ == encoded@.skip(HEADER_BYTES as int),
        },
{
    unframe(Content::Version, encoded)
}

/// What a file among the saved versions is.
pub enum Entry {
    Skipped,
    Version(u128),
    Wrong(Seq<char>),
}

/// What a file among the saved versions is, by its name.
pub open spec fn entry_of(
    is_file: bool,
    extension: Option<Seq<char>>,
    stem: Option<Seq<char>>,
) -> Entry {
    if !is_file || extension != Some(EXTENSION@) {
        Entry::Skipped
    } else {
        match stem {
            None => Entry::Wrong("project version has an invalid filename"@),
            Some(name) => match parsed_identifier(name) {
                None => Entry::Wrong("project version filename is not a UUID"@),
                Some(id) => Entry::Version(id),
            },
        }
    }
}

/// A part of a name, where it is text.
pub open spec fn part_view(part: Option<&str>) -> Option<Seq<char>> {
    match part {
        Some(text) => Some(text@),
        None => None,
    }
}

/// Which version a file holds by its name, or nothing where the file is passed over.
pub fn version_of_file(is_file: bool, extension: Option<&str>, stem: Option<&str>) -> (result:
    Result<Option<u128>, FormatError>)
    ensures
        match entry_of(is_file, part_view(extension), part_view(stem)) {
            Entry::Skipped => result matches Ok(None),
            Entry::Version(id) => result == Ok::<Option<u128>, FormatError>(Some(id)),
            Entry::Wrong(message) => result matches Err(error) && error@ == Problem::Invalid(
                message,
            ),
        },
{
    let fits = match extension {
        Some(ending) => same(ending, EXTENSION),
        None => false,
    };
    if !is_file || !fits {
        return Ok(None);
    }
    match stem {
        None => Err(FormatError::Invalid("project version has an invalid filename")),
        Some(name) => match read_identifier(name) {
            None => Err(FormatError::Invalid("project version filename is not a UUID")),
            Some(id) => Ok(Some(id)),
        },
    }
}

/// The name of the file of a saved version, below [`VERSIONS_DIRECTORY`]: what stands before the
/// dot, and what stands after it. The file is taken for that version.
pub fn version_path(id: u128) -> (result: (String, &'static str))
    ensures
        result.0@ == crate::identifier::hyphenated(id),
        result.1@ == EXTENSION@,
        entry_of(true, Some(result.1@), Some(result.0@)) == Entry::Version(id),
{
    (write_identifier(id), EXTENSION)
}

/// Checks that a file holds the version that its name says.
pub fn check_version(id: u128, version: &StoredVersion) -> (result: Result<(), FormatError>)
    ensures
        version.id == id ==> result is Ok,
        version.id != id ==> (result matches Err(error) && error@ == Problem::Invalid(
            "project version filename and ID do not match"@,
        )),
{
    if version.id != id {
        return Err(FormatError::Invalid("project version filename and ID do not match"));
    }
    Ok(())
}

/// One version was made after another; of two made at once, the one with the larger identifier.
pub open spec fn newer(left: StoredVersion, right: StoredVersion) -> bool {
    left.created_at_ms > right.created_at_ms || (left.created_at_ms == right.created_at_ms
        && left.id > right.id)
}

/// Versions from the newest to the oldest.
pub open spec fn newest_first(versions: Seq<StoredVersion>) -> bool {
    forall|i: int, j: int|
        0 <= i < j < versions.len() ==> !newer(#[trigger] versions[j], #[trigger] versions[i])
}

/// Puts versions into order, the newest first.
pub fn order_versions(versions: Vec<StoredVersion>) -> (result: Vec<StoredVersion>)
    ensures
        result@.to_multiset() == versions@.to_multiset(),
        result.len() == versions.len(),
        newest_first(result@),
{
    let mut rest = versions;
    let mut result: Vec<StoredVersion> = Vec::new();
    proof {
        vstd::seq_lib::to_multiset_len(result@);
        assert(rest@.to_multiset().add(result@.to_multiset()) =~= versions@.to_multiset());
    }
    while rest.len() > 0
        invariant
            rest@.to_multiset().add(result@.to_multiset()) == versions@.to_multiset(),
            newest_first(result@),
        decreases rest.len(),
    {
        let ghost before = rest@;
        match rest.pop() {
            Some(version) => {
                let mut place: usize = 0;
                while place < result.len() && (result[place].created_at_ms > version.created_at_ms
                    || (result[place].created_at_ms == version.created_at_ms && result[place].id
                    > version.id))
                    invariant
                        place <= result.len(),
                        forall|i: int| 0 <= i < place ==> newer(#[trigger] result@[i], version),
                    decreases result.len() - place,
                {
                    place += 1;
                }
                let ghost shorter = result@;
                result.insert(place, version);
                proof {
                    assert(before =~= rest@.push(version));
                    vstd::seq_lib::to_multiset_build(rest@, version);
                    vstd::seq_lib::to_multiset_insert(shorter, place as int, version);
                    assert(rest@.to_multiset().add(result@.to_multiset())
                        =~= before.to_multiset().add(shorter.to_multiset()));
                    assert forall|i: int, j: int| 0 <= i < j < result.len() implies !newer(
                        #[trigger] result@[j],
                        #[trigger] result@[i],
                    ) by {
                        let left = if i < place {
                            i
                        } else {
                            i - 1
                        };
                        let right = if j < place {
                            j
                        } else {
                            j - 1
                        };
                        if i != place && j != place {
                            assert(!newer(shorter[right], shorter[left]));
                        } else if j == place {
                            assert(newer(shorter[i], version));
                        } else {
                            assert(!newer(shorter[place as int], version));
                            if place < right {
                                assert(!newer(shorter[right], shorter[place as int]));
                            }
                        }
                    }
                }
            },
            None => {},
        }
    }
    proof {
        assert(rest@ =~= Seq::empty());
        vstd::seq_lib::to_multiset_len(rest@);
        assert(result@.to_multiset() =~= versions@.to_multiset());
        vstd::seq_lib::to_multiset_len(result@);
        vstd::seq_lib::to_multiset_len(versions@);
    }
    result
}

/// A file begins with eight bytes that say what it holds, and ends with its body behind 52 bytes.
pub proof fn law_files_begin_with_their_mark(content: Content, body: Seq<u8>)
    ensures
        framed(content, body).len() == 52 + body.len(),
        framed(content, body).skip(52) == body,
        content == Content::State ==> framed(content, body).take(8) == seq![
            75u8,
            72u8,
            82u8,
            83u8,
            84u8,
            65u8,
            84u8,
            69u8,
        ],
        content == Content::Version ==> framed(content, body).take(8) == seq![
            75u8,
            72u8,
            82u8,
            86u8,
            69u8,
            82u8,
            83u8,
            78u8,
        ],
        framed(content, body).subrange(20, 52) == checksum(body),
{
    lemma_number_bytes(VERSION as nat, 4);
    lemma_number_bytes(body.len(), 8);
    let file = framed(content, body);
    assert(file.skip(52) =~= body);
    assert(file.take(8) =~= content.mark());
    assert(file.subrange(20, 52) =~= checksum(body));
}

/// A file is only read if it has its mark, is as long as it says, and holds what its checksum was
/// made of.
pub proof fn law_files_that_are_read_fit_their_header(content: Content, encoded: Seq<u8>)
    requires
        file_problem(content, encoded) is None,
    ensures
        encoded.len() >= 52,
        encoded.take(8) == content.mark(),
        bytes_number(encoded.subrange(12, 20)) == encoded.len() - 52,
        checksum(encoded.skip(52)) == encoded.subrange(20, 52),
{
}

/// A state can be written exactly if its contents are not too long and its blobs stand in the order
/// of their numbers, none of them twice.
pub proof fn law_states_hold_their_blobs_in_order(state: StoredState)
    ensures
        state_problem(state) is None <==> state.payload@.len() <= MAX_STATE_BYTES && forall|
            i: int,
            j: int,
        |
            0 <= i < j < state.blobs@.len() ==> {
                let (left, right) = (#[trigger] state.blobs@[i], #[trigger] state.blobs@[j]);
                left.high < right.high || (left.high == right.high && left.low < right.low)
            },
{
    if state_problem(state) is None {
        assert forall|i: int, j: int| 0 <= i < j < state.blobs@.len() implies {
            let (left, right) = (#[trigger] state.blobs@[i], #[trigger] state.blobs@[j]);
            left.high < right.high || (left.high == right.high && left.low < right.low)
        } by {
            assert(state.blobs@[i].precedes(state.blobs@[j]));
        }
    }
}

/// The newest of some versions that stand in order is the first: none was made later.
pub proof fn law_newest_version_comes_first(versions: Seq<StoredVersion>, at: int)
    requires
        newest_first(versions),
        0 <= at < versions.len(),
    ensures
        versions[at].created_at_ms <= versions[0].created_at_ms,
        versions[at].created_at_ms == versions[0].created_at_ms ==> versions[at].id
            <= versions[0].id,
{
    if at > 0 {
        assert(!newer(versions[at], versions[0]));
    }
}

/// A file is taken for a version exactly if it is a file with the ending of versions and its name is
/// an identifier. What is no file or ends otherwise is passed over.
pub proof fn law_versions_are_found_by_their_names(
    is_file: bool,
    extension: Option<Seq<char>>,
    stem: Option<Seq<char>>,
)
    ensures
        !is_file || extension != Some(EXTENSION@) <==> entry_of(is_file, extension, stem) is Skipped,
        entry_of(is_file, extension, stem) matches Entry::Version(id) ==> is_file && extension
            == Some(EXTENSION@) && (stem matches Some(name) && parsed_identifier(name) == Some(id)),
        is_file && extension == Some(EXTENSION@) ==> (stem matches Some(name) ==> (
        parsed_identifier(name) matches Some(id) ==> entry_of(is_file, extension, stem)
            == Entry::Version(id))),
{
}

} // verus!
