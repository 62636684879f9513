//! Text recognition: what an engine is given, what it returns, and the
//! binary form in which a native engine hands its regions over.

use crate::text::{chars_of, push_str_chars, string_of};
use crate::token_cleaner::join_with_feed;
use vstd::prelude::*;
use vstd::slice::slice_subrange;

verus! {

/// What a recognition engine reads.
#[derive(Debug, Clone)]
pub enum OcrInput {
    FilePath(String),
    Bytes(Vec<u8>),
}

/// A rectangle on the page. Each number is held by the bits of its
/// single-precision value.
#[derive(Debug, Clone, Copy, PartialEq, Eq, Structural)]
pub struct BoundingBox {
    pub x: u32,
    pub y: u32,
    pub width: u32,
    pub height: u32,
}

/// A piece of recognized text with its place and the engine's confidence,
/// held by the bits of its single-precision value.
#[derive(Debug, Clone)]
pub struct TextRegion {
    pub text: String,
    pub bounding_box: Option<BoundingBox>,
    pub confidence: Option<u32>,
}

/// What a recognition engine returns.
#[derive(Debug, Clone)]
pub struct OcrOutput {
    pub text: String,
    pub regions: Vec<TextRegion>,
}

/// Why recognition failed.
#[derive(Debug)]
pub enum OcrError {
    Unsupported,
    InvalidInput(String),
    EngineError(String),
}

impl OcrError {
    /// The error in words.
    pub open spec fn message_model(&self) -> Seq<char> {
        match self {
            OcrError::Unsupported => "unsupported operation"@,
            OcrError::InvalidInput(detail) => "invalid input: "@ + detail@,
            OcrError::EngineError(detail) => "engine error: "@ + detail@,
        }
    }

    /// The error in words.
    pub fn message(&self) -> (text: String)
        ensures
            text@ == self.message_model(),
    {
        match self {
            OcrError::Unsupported => "unsupported operation".to_owned(),
            OcrError::InvalidInput(detail) => {
                let mut out = chars_of("invalid input: ");
                push_str_chars(&mut out, detail.as_str());
                string_of(&out)
            },
            OcrError::EngineError(detail) => {
                let mut out = chars_of("engine error: ");
                push_str_chars(&mut out, detail.as_str());
                string_of(&out)
            },
        }
    }
}

/// The recognition engine of the platform.
#[derive(Debug, Clone, Copy)]
pub struct AppleOcrEngine;

impl AppleOcrEngine {
    pub fn new() -> (engine: Self) {
        AppleOcrEngine
    }
}

impl Default for AppleOcrEngine {
    fn default() -> (engine: Self) {
        AppleOcrEngine::new()
    }
}

/// A path can be handed to the native engine if it holds no NUL character.
pub open spec fn path_is_valid(path: Seq<char>) -> bool {
    forall|i: int| 0 <= i < path.len() ==> path[i] != '\0'
}

/// Checks a path before it is handed to the native engine: a path with a
/// NUL character in it is invalid input.
pub fn check_path(path: &str) -> (result: Result<(), OcrError>)
    ensures
        path_is_valid(path@) ==> result is Ok,
        !path_is_valid(path@) ==> (result matches Err(OcrError::InvalidInput(detail)) && detail@
            == "null byte in path"@),
{
    let chars = chars_of(path);
    let mut i: usize = 0;
    while i < chars.len()
        invariant
            i <= chars.len(),
            chars@ == path@,
            forall|k: int| 0 <= k < i ==> path@[k] != '\0',
        decreases chars.len() - i,
    {
        if chars[i] == '\0' {
            return Err(OcrError::InvalidInput("null byte in path".to_owned()));
        }
        i += 1;
    }
    Ok(())
}

/// The texts of the regions, in order.
pub open spec fn region_texts(regions: Seq<TextRegion>) -> Seq<Seq<char>> {
    Seq::new(regions.len(), |i: int| regions[i].text@)
}

/// The output for the regions that an engine found: the regions, and
/// their texts joined by line feeds.
pub fn build_output(regions: Vec<TextRegion>) -> (output: OcrOutput)
    ensures
        output.regions == regions,
        output.text@ == join_with_feed(region_texts(regions@)),
{
    let mut text: Vec<char> = Vec::new();
    let mut i: usize = 0;
    let ghost all = region_texts(regions@);
    assert(all.take(0) =~= Seq::<Seq<char>>::empty());
    while i < regions.len()
        invariant
            i <= regions.len(),
            all == region_texts(regions@),
            text@ == join_with_feed(all.take(i as int)),
        decreases regions.len() - i,
    {
        proof {
            assert(all.take(i + 1).drop_last() =~= all.take(i as int));
            assert(all.take(i + 1).last() == regions@[i as int].text@);
        }
        if i > 0 {
            text.push('\n');
        }
        let ghost fed = text@;
        push_str_chars(&mut text, regions[i].text.as_str());
        proof {
            if i == 0 {
                assert(text@ =~= regions@[i as int].text@);
                assert(all.take(1)[0] == regions@[0].text@);
            } else {
                assert(fed =~= join_with_feed(all.take(i as int)) + seq!['\n']);
            }
        }
        i += 1;
    }
    assert(all.take(regions.len() as int) =~= all);
    OcrOutput { text: string_of(&text), regions }
}

/// The text that `String::from_utf8_lossy` reads from `bytes`.
pub uninterp spec fn utf8_lossy(bytes: Seq<u8>) -> Seq<char>;

/// Reads text from bytes with `String::from_utf8_lossy`, which puts a
/// replacement character wherever the bytes are not UTF-8. The contract
/// claims only that the text is the one that it always gives for these
/// bytes.
#[verifier::external_body]
fn lossy_text(bytes: &[u8]) -> (text: String)
    ensures
        text@ == utf8_lossy(bytes@),
{
    String::from_utf8_lossy(bytes).into_owned()
}

/// The 32-bit number whose four bytes stand at `pos`, lowest first.
pub open spec fn le_u32(data: Seq<u8>, pos: int) -> u32 {
    (data[pos] as int + data[pos + 1] as int * 0x100 + data[pos + 2] as int * 0x1_0000 + data[pos
        + 3] as int * 0x100_0000) as u32
}

/// Where the regions break off.
#[derive(Debug, Clone, Copy, PartialEq, Eq, Structural)]
pub enum Truncated {
    /// Inside a number.
    Data,
    /// Inside the text of a region.
    Text,
    /// Before the flag that tells whether a region has a box.
    BoxFlag,
}

impl Truncated {
    /// The message of the engine error for this break.
    pub open spec fn message_model(self) -> Seq<char> {
        match self {
            Truncated::Data => "truncated data"@,
            Truncated::Text => "truncated text"@,
            Truncated::BoxFlag => "truncated bbox flag"@,
        }
    }

    /// The engine error for this break.
    pub fn to_error(self) -> (error: OcrError)
        ensures
            error matches OcrError::EngineError(detail) && detail@ == self.message_model(),
    {
        match self {
            Truncated::Data => OcrError::EngineError("truncated data".to_owned()),
            Truncated::Text => OcrError::EngineError("truncated text".to_owned()),
            Truncated::BoxFlag => OcrError::EngineError("truncated bbox flag".to_owned()),
        }
    }
}

/// What a `TextRegion` holds, as mathematical values.
pub struct RegionView {
    pub text: Seq<char>,
    pub bounding_box: Option<BoundingBox>,
    pub confidence: Option<u32>,
}

/// The view of a region.
pub open spec fn region_view(region: TextRegion) -> RegionView {
    RegionView {
        text: region.text@,
        bounding_box: region.bounding_box,
        confidence: region.confidence,
    }
}

/// The views of a sequence of regions.
pub open spec fn region_views(regions: Seq<TextRegion>) -> Seq<RegionView> {
    Seq::new(regions.len(), |i: int| region_view(regions[i]))
}

/// The box of a region whose flag stands at `pos`, and the place after
/// it: no box for a flag of zero, else four numbers.
pub open spec fn parse_box(data: Seq<u8>, pos: int) -> Result<(Option<BoundingBox>, int), Truncated> {
    if pos >= data.len() {
        Err(Truncated::BoxFlag)
    } else if data[pos] == 0 {
        Ok((None, pos + 1))
    } else if pos + 17 > data.len() {
        Err(Truncated::Data)
    } else {
        Ok(
            (
                Some(
                    BoundingBox {
                        x: le_u32(data, pos + 1),
                        y: le_u32(data, pos + 5),
                        width: le_u32(data, pos + 9),
                        height: le_u32(data, pos + 13),
                    },
                ),
                pos + 17,
            ),
        )
    }
}

/// The region that stands at `pos`, and the place after it: the length of
/// its text, the text, its confidence, which every region has, and its box.
pub open spec fn parse_region(data: Seq<u8>, pos: int) -> Result<(RegionView, int), Truncated> {
    if pos + 4 > data.len() {
        Err(Truncated::Data)
    } else {
        let text_at = pos + 4;
        let text_end = text_at + le_u32(data, pos);
        if text_end > data.len() {
            Err(Truncated::Text)
        } else if text_end + 4 > data.len() {
            Err(Truncated::Data)
        } else {
            match parse_box(data, text_end + 4) {
                Ok((bounding_box, next)) => Ok(
                    (
                        RegionView {
                            text: utf8_lossy(data.subrange(text_at, text_end)),
                            bounding_box,
                            confidence: Some(le_u32(data, text_end)),
                        },
                        next,
                    ),
                ),
                Err(e) => Err(e),
            }
        }
    }
}

/// `count` regions one after the other from `pos` on.
pub open spec fn parse_regions(data: Seq<u8>, pos: int, count: nat) -> Result<
    Seq<RegionView>,
    Truncated,
>
    decreases count,
{
    if count == 0 {
        Ok(Seq::empty())
    } else {
        match parse_region(data, pos) {
            Ok((region, next)) => after_regions(
                seq![region],
                parse_regions(data, next, (count - 1) as nat),
            ),
            Err(e) => Err(e),
        }
    }
}

/// The regions `done` and then those that follow, if they could be read.
pub open spec fn after_regions(done: Seq<RegionView>, rest: Result<Seq<RegionView>, Truncated>) -> Result<
    Seq<RegionView>,
    Truncated,
> {
    match rest {
        Ok(regions) => Ok(done + regions),
        Err(e) => Err(e),
    }
}

/// The regions that `data` holds: their number, then each of them.
pub open spec fn deserialize_model(data: Seq<u8>) -> Result<Seq<RegionView>, Truncated> {
    if 4 > data.len() {
        Err(Truncated::Data)
    } else {
        parse_regions(data, 4, le_u32(data, 0) as nat)
    }
}

/// Reads the 32-bit number at `pos`, if four bytes stand there.
pub fn read_u32(data: &[u8], pos: usize) -> (value: Option<u32>)
    ensures
        pos + 4 > data@.len() ==> value is None,
        pos + 4 <= data@.len() ==> value == Some(le_u32(data@, pos as int)),
{
    let n = data.len();
    if pos > n || n - pos < 4 {
        return None;
    }
    let b0 = data[pos] as u32;
    let b1 = data[pos + 1] as u32;
    let b2 = data[pos + 2] as u32;
    let b3 = data[pos + 3] as u32;
    Some(b0 + b1 * 0x100 + b2 * 0x1_0000 + b3 * 0x100_0000)
}

/// Reads the box whose flag stands at `pos`.
fn read_box(data: &[u8], pos: usize) -> (result: Result<(Option<BoundingBox>, usize), Truncated>)
    requires
        pos <= data@.len(),
    ensures
        match parse_box(data@, pos as int) {
            Ok((bounding_box, next)) => result == Ok::<(Option<BoundingBox>, usize), Truncated>(
                (bounding_box, next as usize),
            ) && next <= data@.len(),
            Err(e) => result == Err::<(Option<BoundingBox>, usize), Truncated>(e),
        },
{
    let n = data.len();
    if pos >= n {
        return Err(Truncated::BoxFlag);
    }
    if data[pos] == 0 {
        return Ok((None, pos + 1));
    }
    if n - pos < 17 {
        return Err(Truncated::Data);
    }
    let x = read_u32(data, pos + 1).unwrap();
    let y = read_u32(data, pos + 5).unwrap();
    let width = read_u32(data, pos + 9).unwrap();
    let height = read_u32(data, pos + 13).unwrap();
    Ok((Some(BoundingBox { x, y, width, height }), pos + 17))
}

/// Reads the region that stands at `pos`.
fn read_region(data: &[u8], pos: usize) -> (result: Result<(TextRegion, usize), Truncated>)
    requires
        pos <= data@.len(),
    ensures
        match parse_region(data@, pos as int) {
            Ok((region, next)) => result matches Ok((read, after)) && region_view(read) == region
                && after == next && next <= data@.len(),
            Err(e) => result == Err::<(TextRegion, usize), Truncated>(e),
        },
{
    let n = data.len();
    let text_len = match read_u32(data, pos) {
        Some(len) => len as usize,
        None => {
            return Err(Truncated::Data);
        },
    };
    let text_at = pos + 4;
    if text_len > n - text_at {
        return Err(Truncated::Text);
    }
    let text_end = text_at + text_len;
    let text = lossy_text(slice_subrange(data, text_at, text_end));
    let confidence = match read_u32(data, text_end) {
        Some(bits) => bits,
        None => {
            return Err(Truncated::Data);
        },
    };
    match read_box(data, text_end + 4) {
        Ok((bounding_box, next)) => Ok(
            (TextRegion { text, bounding_box, confidence: Some(confidence) }, next),
        ),
        Err(e) => Err(e),
    }
}

/// Reads the regions that a native engine handed over as bytes: a count,
/// then for each region the length of its text, the text, the confidence,
/// a flag, and after a flag that is not zero the four numbers of its box.
/// Numbers are 32 bits, lowest byte first. Bytes that break off early are
/// an engine error that says where.
pub fn deserialize_regions(data: &[u8]) -> (result: Result<Vec<TextRegion>, OcrError>)
    ensures
        match deserialize_model(data@) {
            Ok(regions) => result matches Ok(read) && region_views(read@) == regions && forall|
                i: int,
            |
                0 <= i < read@.len() ==> (#[trigger] read@[i]).confidence is Some,
            Err(e) => result matches Err(OcrError::EngineError(detail)) && detail@
                == e.message_model(),
        },
{
    let count = match read_u32(data, 0) {
        Some(count) => count,
        None => {
            return Err(Truncated::Data.to_error());
        },
    };
    let mut regions: Vec<TextRegion> = Vec::new();
    let mut pos: usize = 4;
    let mut left: u32 = count;
    let ghost goal = parse_regions(data@, 4, count as nat);
    proof {
        assert(region_views(regions@) =~= Seq::<RegionView>::empty());
        lemma_after_nothing(parse_regions(data@, 4, count as nat));
    }
    while left > 0
        invariant
            pos <= data@.len(),
            goal == deserialize_model(data@),
            forall|i: int| 0 <= i < regions@.len() ==> (#[trigger] regions@[i]).confidence is Some,
            after_regions(region_views(regions@), parse_regions(data@, pos as int, left as nat))
                == goal,
        decreases left,
    {
        let ghost done = region_views(regions@);
        match read_region(data, pos) {
            Ok((region, next)) => {
                proof {
                    let rest = parse_regions(data@, next as int, (left - 1) as nat);
                    assert(region_views(regions@.push(region)) =~= done.push(region_view(region)));
                    lemma_after_one_more(done, region_view(region), rest);
                }
                regions.push(region);
                pos = next;
                left -= 1;
            },
            Err(e) => {
                return Err(e.to_error());
            },
        }
    }
    proof {
        assert(region_views(regions@) + Seq::<RegionView>::empty() =~= region_views(regions@));
    }
    Ok(regions)
}

/// Nothing done yet leaves what follows as it is.
proof fn lemma_after_nothing(rest: Result<Seq<RegionView>, Truncated>)
    ensures
        after_regions(Seq::empty(), rest) == rest,
{
    match rest {
        Ok(regions) => {
            assert(Seq::<RegionView>::empty() + regions =~= regions);
        },
        Err(_) => {},
    }
}

/// One more region done, then the rest, is the region before the rest.
proof fn lemma_after_one_more(
    done: Seq<RegionView>,
    region: RegionView,
    rest: Result<Seq<RegionView>, Truncated>,
)
    ensures
        after_regions(done.push(region), rest) == after_regions(
            done,
            after_regions(seq![region], rest),
        ),
{
    match rest {
        Ok(regions) => {
            assert(done.push(region) + regions =~= done + (seq![region] + regions));
        },
        Err(_) => {},
    }
}

} // verus!
