//! Squashing an MDT image and its blob files into one MBN image: what is read
//! from where, and where it is written.

use vstd::prelude::*;
use vstd::string::*;

use crate::error;
use crate::error::{Error, ErrorKind};
use crate::number;
use crate::number::{to_decimal, to_two_digits};
use crate::path;
use crate::path::set_extension;
use crate::slot;

verus! {

/// The bits of a program header's flags that tell how a segment is stored.
pub const FLAGS_READ_MASK: u32 = 0x0700_0000;

/// The value of these bits for a segment that the MDT itself holds.
pub const FLAGS_MDT_VALUE: u32 = 0x0200_0000;

/// The size in the file, the flags and the file offset of each program header
/// that `goblin::elf::Elf::parse` reads from an ELF image, or the text of the
/// error it reports. The name speaks for targets whose `usize` holds a 64-bit
/// file offset.
pub uninterp spec fn elf_program_headers(image: Seq<u8>) -> Result<
    Seq<(u64, u32, u64)>,
    Seq<char>,
>;

/// The value and the error of a parse as mathematical values.
pub open spec fn parse_view(parsed: Result<Vec<(u64, u32, u64)>, String>) -> Result<
    Seq<(u64, u32, u64)>,
    Seq<char>,
> {
    match parsed {
        Ok(headers) => Ok(headers@),
        Err(message) => Err(message@),
    }
}

/// `goblin::elf::Elf::parse` reads the program headers of an ELF image, and
/// its result depends on the image alone; `p_filesz`, `p_flags` and `p_offset`
/// of each header are kept, in order, and an error is kept as its text.
#[verifier::external_body]
fn parse_program_headers(image: &[u8]) -> (parsed: Result<Vec<(u64, u32, u64)>, String>)
    ensures
        parse_view(parsed) == elf_program_headers(image@),
{
    match goblin::elf::Elf::parse(image) {
        Ok(elf) => Ok(
            elf.program_headers.iter().map(|h| (h.p_filesz, h.p_flags, h.p_offset)).collect(),
        ),
        Err(e) => Err(e.to_string()),
    }
}

/// Where the contents of a segment are read.
#[derive(Debug, PartialEq, Eq)]
pub enum Origin {
    /// The MDT itself, from the given offset on.
    Metadata { at: u64 },
    /// The whole of a blob file beside the MDT.
    Blob { path: String },
}

/// The origin of a segment as a mathematical value.
pub enum OriginView {
    Metadata { at: u64 },
    Blob { path: Seq<char> },
}

impl DeepView for Origin {
    type V = OriginView;

    open spec fn deep_view(&self) -> OriginView {
        match self {
            Origin::Metadata { at } => OriginView::Metadata { at: *at },
            Origin::Blob { path } => OriginView::Blob { path: path@ },
        }
    }
}

/// A segment of the MBN: `size` bytes of its origin, written at `offset`.
#[derive(Debug, PartialEq, Eq)]
pub struct Segment {
    pub origin: Origin,
    pub size: u64,
    pub offset: u64,
}

/// A segment as a mathematical value.
pub struct SegmentView {
    pub origin: OriginView,
    pub size: u64,
    pub offset: u64,
}

impl DeepView for Segment {
    type V = SegmentView;

    open spec fn deep_view(&self) -> SegmentView {
        SegmentView { origin: self.origin.deep_view(), size: self.size, offset: self.offset }
    }
}

/// The blob file of a program header: the MDT with the number of the header,
/// at least two digits long, behind a `b` as its extension.
pub open spec fn blob_path(mdt: Seq<char>, header: int) -> Seq<char> {
    path::with_extension(mdt, "b"@ + number::padded_decimal(header as nat, 2))
}

/// Where the segment of a program header is read. In the MDT, what follows
/// the first header's segment is read.
pub open spec fn origin_of(mdt: Seq<char>, headers: Seq<(u64, u32, u64)>, header: int) -> OriginView {
    if headers[header].1 & FLAGS_READ_MASK == FLAGS_MDT_VALUE {
        OriginView::Metadata { at: headers[0].0 }
    } else {
        OriginView::Blob { path: blob_path(mdt, header) }
    }
}

/// The segments of the first `count` program headers; one without contents
/// has none.
pub open spec fn segments_of(mdt: Seq<char>, headers: Seq<(u64, u32, u64)>, count: int) -> Seq<
    SegmentView,
>
    decreases count,
{
    if count <= 0 {
        Seq::empty()
    } else {
        let before = segments_of(mdt, headers, count - 1);
        let header = headers[count - 1];
        if header.0 == 0 {
            before
        } else {
            before.push(
                SegmentView {
                    origin: origin_of(mdt, headers, count - 1),
                    size: header.0,
                    offset: header.2,
                },
            )
        }
    }
}

/// The segments of an MDT whose program headers were parsed.
pub open spec fn squashed(
    mdt: Seq<char>,
    parsed: Result<Seq<(u64, u32, u64)>, Seq<char>>,
) -> Result<Seq<SegmentView>, error::ErrorView> {
    match parsed {
        Ok(headers) => Ok(segments_of(mdt, headers, headers.len() as int)),
        Err(message) => Err(slot::invalid_data(message)),
    }
}

/// Whether the right number of bytes was read for a segment.
pub open spec fn segment_check(size: u64, read: nat) -> Result<(), error::ErrorView> {
    if read == size {
        Ok(())
    } else {
        Err(
            error::ErrorView {
                kind: ErrorKind::UnexpectedEof,
                message: "Read "@ + number::decimal(read) + " bytes (!= "@
                    + number::decimal(size as nat) + ")"@,
            },
        )
    }
}

/// Lays out the segments of an MDT from its program headers.
pub fn plan_segments(inpath: &str, headers: &Vec<(u64, u32, u64)>) -> (segments: Vec<Segment>)
    ensures
        segments.deep_view() == segments_of(inpath@, headers@, headers@.len() as int),
{
    let mut segments: Vec<Segment> = Vec::new();
    let mut hash_offset: u64 = 0;
    assert(segments.deep_view() =~= Seq::<SegmentView>::empty());
    for i in 0..headers.len()
        invariant
            i > 0 ==> hash_offset == headers@[0].0,
            segments.deep_view() == segments_of(inpath@, headers@, i as int),
    {
        let ghost before = segments.deep_view();
        let (size, flags, offset) = headers[i];
        if i == 0 {
            hash_offset = size;
        }
        if size != 0 {
            let origin = if flags & FLAGS_READ_MASK == FLAGS_MDT_VALUE {
                Origin::Metadata { at: hash_offset }
            } else {
                let mut extension = "b".to_string();
                extension.append(to_two_digits(i as u64).as_str());
                proof {
                    lemma_blob_extension(i as nat);
                }
                Origin::Blob { path: set_extension(inpath, extension.as_str()) }
            };
            let segment = Segment { origin, size, offset };
            segments.push(segment);
            assert(segments.deep_view() =~= before.push(segment.deep_view()));
        }
    }
    segments
}

/// Lays out the segments of the MDT image at `inpath`.
pub fn squash_file(inpath: &str, image: &[u8]) -> (segments: Result<Vec<Segment>, Error>)
    ensures
        error::result_view(segments) == squashed(inpath@, elf_program_headers(image@)),
{
    match parse_program_headers(image) {
        Ok(headers) => Ok(plan_segments(inpath, &headers)),
        Err(message) => Err(Error::new(ErrorKind::InvalidData, message)),
    }
}

/// Contents and the place in a file where they are written.
#[derive(Debug, PartialEq, Eq)]
pub struct Placement {
    pub offset: u64,
    pub contents: Vec<u8>,
}

/// A placement as a mathematical value.
pub struct PlacementView {
    pub offset: int,
    pub contents: Seq<u8>,
}

impl DeepView for Placement {
    type V = PlacementView;

    open spec fn deep_view(&self) -> PlacementView {
        PlacementView { offset: self.offset as int, contents: self.contents@ }
    }
}

/// What is written for a segment once its contents were read.
pub open spec fn placed_segment(segment: SegmentView, contents: Seq<u8>) -> Result<
    PlacementView,
    error::ErrorView,
> {
    match segment_check(segment.size, contents.len()) {
        Ok(_) => Ok(PlacementView { offset: segment.offset as int, contents }),
        Err(error) => Err(error),
    }
}

impl Segment {
    /// Takes the contents that were read for the segment and says where they
    /// are written; contents of another size than the program header gives
    /// are rejected.
    pub fn place(&self, contents: Vec<u8>) -> (placement: Result<Placement, Error>)
        ensures
            error::result_view(placement) == placed_segment(self.deep_view(), contents@),
    {
        let read: u64 = contents.len() as u64;
        if read == self.size {
            return Ok(Placement { offset: self.offset, contents });
        }
        let mut message = "Read ".to_string();
        message.append(to_decimal(read).as_str());
        message.append(" bytes (!= ");
        message.append(to_decimal(self.size).as_str());
        message.append(")");
        Err(Error::new(ErrorKind::UnexpectedEof, message))
    }
}

/// A file after contents were written into it; what was never written is zero.
pub open spec fn written(file: Seq<u8>, placement: PlacementView) -> Seq<u8> {
    let end = placement.offset + placement.contents.len();
    if placement.contents.len() == 0 {
        file
    } else {
        Seq::new(
            if end > file.len() {
                end as nat
            } else {
                file.len()
            },
            |i: int|
                if placement.offset <= i < end {
                    placement.contents[i - placement.offset]
                } else if i < file.len() {
                    file[i]
                } else {
                    0u8
                },
        )
    }
}

/// An empty file after contents were written into it one after the other.
pub open spec fn image_of(placements: Seq<PlacementView>) -> Seq<u8>
    decreases placements.len(),
{
    if placements.len() == 0 {
        Seq::empty()
    } else {
        written(image_of(placements.drop_last()), placements.last())
    }
}

/// Whether two placements have no byte of the file in common.
pub open spec fn apart(a: PlacementView, b: PlacementView) -> bool {
    a.offset + a.contents.len() <= b.offset || b.offset + b.contents.len() <= a.offset
}

/// Contents that nothing is written over afterwards stand in the image at their
/// offset, whole and unchanged.
pub proof fn lemma_contents_stand_in_the_image(placements: Seq<PlacementView>, at: int)
    requires
        0 <= at < placements.len(),
        forall|i: int| 0 <= i < placements.len() ==> (#[trigger] placements[i]).offset >= 0,
        forall|i: int| at < i < placements.len() ==> apart(#[trigger] placements[i], placements[at]),
        placements[at].contents.len() > 0,
    ensures
        image_of(placements).len() >= placements[at].offset + placements[at].contents.len(),
        image_of(placements).subrange(
            placements[at].offset,
            placements[at].offset + placements[at].contents.len(),
        ) == placements[at].contents,
    decreases placements.len(),
{
    let kept = placements[at];
    let end = kept.offset + kept.contents.len();
    let before = placements.drop_last();
    let image = image_of(placements);
    if at < placements.len() - 1 {
        assert forall|i: int| at < i < before.len() implies apart(
            #[trigger] before[i],
            before[at],
        ) by {
            assert(before[i] == placements[i]);
        }
        assert forall|i: int| 0 <= i < before.len() implies (
        #[trigger] before[i]).offset >= 0 by {
            assert(before[i] == placements[i]);
        }
        lemma_contents_stand_in_the_image(before, at);
        assert(apart(placements[placements.len() - 1], kept));
        let so_far = image_of(before);
        assert forall|i: int| kept.offset <= i < end implies image[i] == kept.contents[i
            - kept.offset] by {
            assert(so_far.subrange(kept.offset, end)[i - kept.offset] == so_far[i]);
        }
    }
    assert(image.subrange(kept.offset, end) =~= kept.contents);
}

/// What no contents were written to is zero in the image.
pub proof fn lemma_rest_of_the_image_is_zero(placements: Seq<PlacementView>, place: int)
    requires
        0 <= place < image_of(placements).len(),
        forall|i: int|
            0 <= i < placements.len() ==> !((#[trigger] placements[i]).offset <= place
                < placements[i].offset + placements[i].contents.len()),
    ensures
        image_of(placements)[place] == 0,
    decreases placements.len(),
{
    if placements.len() > 0 {
        let before = placements.drop_last();
        let last = placements[placements.len() - 1];
        assert(!(last.offset <= place < last.offset + last.contents.len()));
        assert forall|i: int| 0 <= i < before.len() implies !((#[trigger] before[i]).offset <= place
            < before[i].offset + before[i].contents.len()) by {
            assert(before[i] == placements[i]);
        }
        if place < image_of(before).len() {
            lemma_rest_of_the_image_is_zero(before, place);
        }
    }
}

/// Every program header with contents gives one segment, of its size and at
/// its offset, and the segments are in the order of the headers.
pub proof fn lemma_segments_follow_headers(
    mdt: Seq<char>,
    headers: Seq<(u64, u32, u64)>,
    count: int,
    header: int,
)
    requires
        0 <= header < count <= headers.len(),
        headers[header].0 != 0,
    ensures
        ({
            let at = segments_of(mdt, headers, header).len();
            let all = segments_of(mdt, headers, count);
            &&& at < all.len()
            &&& all[at as int] == (SegmentView {
                origin: origin_of(mdt, headers, header),
                size: headers[header].0,
                offset: headers[header].2,
            })
            &&& all.take(at as int) == segments_of(mdt, headers, header)
        }),
    decreases count,
{
    let at = segments_of(mdt, headers, header).len();
    let all = segments_of(mdt, headers, count);
    if count == header + 1 {
        assert(all.take(at as int) =~= segments_of(mdt, headers, header));
    } else {
        lemma_segments_follow_headers(mdt, headers, count - 1, header);
        let before = segments_of(mdt, headers, count - 1);
        assert(all.take(at as int) =~= before.take(at as int));
    }
}

/// A program header without contents gives no segment.
pub proof fn lemma_segments_have_contents(
    mdt: Seq<char>,
    headers: Seq<(u64, u32, u64)>,
    count: int,
)
    requires
        0 <= count <= headers.len(),
    ensures
        segments_of(mdt, headers, count).len() <= count,
        forall|i: int|
            0 <= i < segments_of(mdt, headers, count).len() ==> (#[trigger] segments_of(
                mdt,
                headers,
                count,
            )[i]).size != 0,
    decreases count,
{
    if count > 0 {
        lemma_segments_have_contents(mdt, headers, count - 1);
    }
}

/// A number of at least two digits reads back as the number.
proof fn lemma_padded_reads_back(n: nat)
    ensures
        number::decimal_value(number::padded_decimal(n, 2)) == n,
{
    number::lemma_decimal_reads_back(n);
    if n < 10 {
        let padded = number::padded_decimal(n, 2);
        assert(number::decimal(n) =~= seq![number::digit(n)]);
        assert(padded =~= seq!['0', number::digit(n)]);
        assert(padded.drop_last() =~= seq!['0']);
        assert(seq!['0'].drop_last() =~= Seq::<char>::empty());
        reveal_with_fuel(number::decimal_value, 3);
    } else {
        number::lemma_decimal_reads_back(n / 10);
    }
}

/// The extension of a blob file holds no separator and is not empty.
proof fn lemma_blob_extension(n: nat)
    ensures
        !("b"@ + number::padded_decimal(n, 2)).contains('/'),
        ("b"@ + number::padded_decimal(n, 2)).len() > 0,
{
    reveal_strlit("b");
    number::lemma_decimal_reads_back(n);
    let extension = "b"@ + number::padded_decimal(n, 2);
    let digits = number::decimal(n);
    assert forall|i: int| 0 <= i < extension.len() implies extension[i] != '/' by {
        if i > 0 {
            let back = i - extension.len() + digits.len();
            if 0 <= back {
                assert(extension[i] == digits[back]);
                assert(number::is_digit(digits[back]));
            }
        }
    }
}

/// No two program headers share a blob file.
pub proof fn lemma_blob_files_are_distinct(mdt: Seq<char>, header: nat, other: nat)
    requires
        path::file_name(mdt) is Some,
        header != other,
    ensures
        blob_path(mdt, header as int) != blob_path(mdt, other as int),
{
    let name = path::file_name(mdt)->0;
    let body = path::without_trailing(mdt);
    let front = body.take(body.len() - name.len() + path::stem_len(name)).push('.') + "b"@;
    let a = number::padded_decimal(header, 2);
    let b = number::padded_decimal(other, 2);
    lemma_blob_extension(header);
    lemma_blob_extension(other);
    assert(blob_path(mdt, header as int) =~= front + a);
    assert(blob_path(mdt, other as int) =~= front + b);
    if front + a == front + b {
        assert(a =~= (front + a).skip(front.len() as int));
        assert(b =~= (front + b).skip(front.len() as int));
        lemma_padded_reads_back(header);
        lemma_padded_reads_back(other);
    }
}

/// The end of the last of the contents in a file.
pub open spec fn last_end(placements: Seq<PlacementView>) -> int
    decreases placements.len(),
{
    if placements.len() == 0 {
        0
    } else {
        let before = last_end(placements.drop_last());
        let end = placements.last().offset + placements.last().contents.len();
        if placements.last().contents.len() > 0 && end > before {
            end
        } else {
            before
        }
    }
}

/// An image is as long as the last of its contents reaches.
proof fn lemma_image_length(placements: Seq<PlacementView>)
    requires
        forall|i: int| 0 <= i < placements.len() ==> (#[trigger] placements[i]).offset >= 0,
    ensures
        image_of(placements).len() == last_end(placements),
    decreases placements.len(),
{
    if placements.len() > 0 {
        let before = placements.drop_last();
        assert(placements[placements.len() - 1].offset >= 0);
        assert forall|i: int| 0 <= i < before.len() implies (
        #[trigger] before[i]).offset >= 0 by {
            assert(before[i] == placements[i]);
        }
        lemma_image_length(before);
    }
}

/// The end of the last of the first `count` program headers that has contents.
pub open spec fn headers_end(headers: Seq<(u64, u32, u64)>, count: int) -> int
    decreases count,
{
    if count <= 0 {
        0
    } else {
        let before = headers_end(headers, count - 1);
        let end = headers[count - 1].2 + headers[count - 1].0;
        if headers[count - 1].0 > 0 && end > before {
            end
        } else {
            before
        }
    }
}

/// Whether the contents of no two program headers overlap.
pub open spec fn headers_apart(headers: Seq<(u64, u32, u64)>) -> bool {
    forall|i: int, j: int|
        0 <= i < j < headers.len() && (#[trigger] headers[i]).0 > 0 && (#[trigger] headers[j]).0 > 0
            ==> headers[i].2 + headers[i].0 <= headers[j].2 || headers[j].2 + headers[j].0
            <= headers[i].2
}

/// Whether contents were placed for each of the segments.
pub open spec fn all_placed(
    segments: Seq<SegmentView>,
    contents: Seq<Seq<u8>>,
    placements: Seq<PlacementView>,
) -> bool {
    &&& contents.len() == segments.len()
    &&& placements.len() == segments.len()
    &&& forall|k: int|
        0 <= k < segments.len() ==> placed_segment(
            #[trigger] segments[k],
            contents[k],
        ) == Ok::<PlacementView, error::ErrorView>(placements[k])
}

/// The program header that a segment belongs to.
proof fn lemma_header_of_segment(
    mdt: Seq<char>,
    headers: Seq<(u64, u32, u64)>,
    count: int,
    segment: int,
) -> (header: int)
    requires
        0 <= count <= headers.len(),
        0 <= segment < segments_of(mdt, headers, count).len(),
    ensures
        0 <= header < count,
        headers[header].0 != 0,
        segments_of(mdt, headers, header).len() == segment,
        segments_of(mdt, headers, count)[segment].size == headers[header].0,
        segments_of(mdt, headers, count)[segment].offset == headers[header].2,
    decreases count,
{
    let before = segments_of(mdt, headers, count - 1);
    if segment < before.len() {
        lemma_header_of_segment(mdt, headers, count - 1, segment)
    } else {
        count - 1
    }
}

/// The contents of the first headers reach as far as the headers say.
proof fn lemma_headers_end(
    mdt: Seq<char>,
    headers: Seq<(u64, u32, u64)>,
    count: int,
    contents: Seq<Seq<u8>>,
    placements: Seq<PlacementView>,
)
    requires
        0 <= count <= headers.len(),
        all_placed(segments_of(mdt, headers, count), contents, placements),
    ensures
        last_end(placements) == headers_end(headers, count),
    decreases count,
{
    if count > 0 {
        let segments = segments_of(mdt, headers, count);
        let before = segments_of(mdt, headers, count - 1);
        if headers[count - 1].0 == 0 {
            lemma_headers_end(mdt, headers, count - 1, contents, placements);
        } else {
            assert forall|k: int| 0 <= k < before.len() implies placed_segment(
                #[trigger] before[k],
                contents.drop_last()[k],
            ) == Ok::<PlacementView, error::ErrorView>(placements.drop_last()[k]) by {
                assert(before[k] == segments[k]);
            }
            lemma_headers_end(
                mdt,
                headers,
                count - 1,
                contents.drop_last(),
                placements.drop_last(),
            );
            let last = segments.len() - 1;
            assert(placed_segment(segments[last], contents[last]) == Ok::<
                PlacementView,
                error::ErrorView,
            >(placements[last]));
        }
    }
}

/// The image of an MDT whose program headers do not overlap: it holds the
/// contents of each header at the offset of the header, is zero elsewhere, and
/// is as long as the last header reaches.
pub proof fn lemma_image_of_headers(
    mdt: Seq<char>,
    headers: Seq<(u64, u32, u64)>,
    contents: Seq<Seq<u8>>,
    placements: Seq<PlacementView>,
)
    requires
        headers_apart(headers),
        all_placed(segments_of(mdt, headers, headers.len() as int), contents, placements),
    ensures
        image_of(placements).len() == headers_end(headers, headers.len() as int),
        forall|header: int|
            0 <= header < headers.len() && (#[trigger] headers[header]).0 > 0 ==> {
                let segment = segments_of(mdt, headers, header).len() as int;
                &&& segment < contents.len()
                &&& headers[header].2 + headers[header].0 <= image_of(placements).len()
                &&& image_of(placements).subrange(
                    headers[header].2 as int,
                    headers[header].2 + headers[header].0,
                ) == contents[segment]
            },
        forall|place: int|
            0 <= place < image_of(placements).len() && (forall|header: int|
                0 <= header < headers.len() ==> !((#[trigger] headers[header]).2 <= place
                    < headers[header].2 + headers[header].0)) ==> #[trigger] image_of(
                placements,
            )[place] == 0,
{
    let count = headers.len() as int;
    let segments = segments_of(mdt, headers, count);
    let image = image_of(placements);
    assert forall|k: int| 0 <= k < placements.len() implies (#[trigger] placements[k]).offset >= 0
        && placements[k].offset == segments[k].offset && placements[k].contents == contents[k]
        && contents[k].len() == segments[k].size by {
        assert(placed_segment(segments[k], contents[k]) == Ok::<PlacementView, error::ErrorView>(
            placements[k],
        ));
    }
    lemma_image_length(placements);
    lemma_headers_end(mdt, headers, count, contents, placements);
    assert forall|header: int| 0 <= header < headers.len() && (
    #[trigger] headers[header]).0 > 0 implies {
        let segment = segments_of(mdt, headers, header).len() as int;
        &&& segment < contents.len()
        &&& headers[header].2 + headers[header].0 <= image.len()
        &&& image.subrange(headers[header].2 as int, headers[header].2 + headers[header].0)
            == contents[segment]
    } by {
        lemma_segments_follow_headers(mdt, headers, count, header);
        let segment = segments_of(mdt, headers, header).len() as int;
        assert(placements[segment].offset == segments[segment].offset);
        assert forall|k: int| segment < k < placements.len() implies apart(
            #[trigger] placements[k],
            placements[segment],
        ) by {
            let other = lemma_header_of_segment(mdt, headers, count, k);
            assert(other != header);
            assert(headers[other].0 > 0);
            assert(placements[k].offset == headers[other].2);
        }
        lemma_contents_stand_in_the_image(placements, segment);
    }
    assert forall|place: int|
        0 <= place < image.len() && (forall|header: int|
            0 <= header < headers.len() ==> !((#[trigger] headers[header]).2 <= place
                < headers[header].2 + headers[header].0)) implies #[trigger] image[place] == 0 by {
        assert forall|k: int| 0 <= k < placements.len() implies !((
        #[trigger] placements[k]).offset <= place < placements[k].offset
            + placements[k].contents.len()) by {
            let header = lemma_header_of_segment(mdt, headers, count, k);
            assert(!(headers[header].2 <= place < headers[header].2 + headers[header].0));
        }
        lemma_rest_of_the_image_is_zero(placements, place);
    }
}

/// Contents are placed exactly where there are as many bytes as the program
/// header says, wherever they were read; they are placed at the offset of the
/// header, as they are. Any other number of bytes is an error that names both.
pub proof fn lemma_contents_of_the_right_size_are_placed(
    segment: SegmentView,
    contents: Seq<u8>,
)
    ensures
        placed_segment(segment, contents) is Ok <==> contents.len() == segment.size,
        placed_segment(segment, contents) matches Ok(placement) ==> placement.offset
            == segment.offset && placement.contents == contents,
        placed_segment(segment, contents) matches Err(error) ==> error.kind
            == ErrorKind::UnexpectedEof && error.message == "Read "@ + number::decimal(
            contents.len(),
        ) + " bytes (!= "@ + number::decimal(segment.size as nat) + ")"@,
{
}

/// Headers further on do not change the segments of those before.
proof fn lemma_segments_of_front(
    mdt: Seq<char>,
    headers: Seq<(u64, u32, u64)>,
    more: (u64, u32, u64),
    count: int,
)
    requires
        0 <= count <= headers.len(),
    ensures
        segments_of(mdt, headers.push(more), count) == segments_of(mdt, headers, count),
    decreases count,
{
    if count > 0 {
        lemma_segments_of_front(mdt, headers, more, count - 1);
        assert(headers.push(more)[count - 1] == headers[count - 1]);
        assert(headers.push(more)[0] == headers[0]);
    }
}

/// One more program header adds one segment, unless it has no contents. The
/// segment has the size and the offset of the header. It is read in the MDT,
/// behind the first header's segment, where the flags say so, and else from the
/// blob file with the number of the header.
pub proof fn lemma_headers_add_segments(
    mdt: Seq<char>,
    headers: Seq<(u64, u32, u64)>,
    more: (u64, u32, u64),
)
    ensures
        squashed(mdt, Ok(Seq::empty())) == Ok::<Seq<SegmentView>, error::ErrorView>(Seq::empty()),
        squashed(mdt, Ok(headers)) is Ok,
        squashed(mdt, Ok(headers.push(more))) == Ok::<Seq<SegmentView>, error::ErrorView>(
            if more.0 == 0 {
                squashed(mdt, Ok(headers))->Ok_0
            } else {
                squashed(mdt, Ok(headers))->Ok_0.push(
                    SegmentView {
                        origin: if more.1 & 0x0700_0000u32 == 0x0200_0000u32 {
                            OriginView::Metadata { at: headers.push(more)[0].0 }
                        } else {
                            OriginView::Blob {
                                path: path::with_extension(
                                    mdt,
                                    seq!['b'] + number::padded_decimal(headers.len(), 2),
                                ),
                            }
                        },
                        size: more.0,
                        offset: more.2,
                    },
                )
            },
        ),
{
    reveal_strlit("b");
    assert("b"@ =~= seq!['b']);
    let all = headers.push(more);
    lemma_segments_of_front(mdt, headers, more, headers.len() as int);
    assert(all[all.len() - 1] == more);
}

/// What cannot be parsed is invalid, with the text of the parser's error.
pub proof fn lemma_unparsable_images_are_invalid(mdt: Seq<char>, message: Seq<char>)
    ensures
        squashed(mdt, Err(message)) == Err::<Seq<SegmentView>, error::ErrorView>(
            error::ErrorView { kind: ErrorKind::InvalidData, message },
        ),
{
}

/// The blob files of an MDT lie beside it under its name, with the number of
/// the header, in two digits at least, behind a `b` as the extension.
pub proof fn lemma_blob_files_lie_beside(
    front: Seq<char>,
    stem: Seq<char>,
    old_extension: Seq<char>,
    header: nat,
)
    requires
        front.len() == 0 || front.last() == '/',
        stem.len() > 0,
        !stem.contains('/'),
        !old_extension.contains('/'),
        !old_extension.contains('.'),
        !(stem == seq!['.'] && old_extension.len() == 0),
    ensures
        blob_path(front + (stem.push('.') + old_extension), header as int) == front + stem + seq![
            '.',
            'b',
        ] + (if header < 10 {
            seq!['0'] + number::decimal(header)
        } else {
            number::decimal(header)
        }),
{
    reveal_strlit("b");
    assert("b"@ =~= seq!['b']);
    lemma_blob_extension(header);
    let extension = "b"@ + number::padded_decimal(header, 2);
    path::lemma_extensions_are_exchanged(front, stem, old_extension, extension);
    if header < 10 {
        number::lemma_numbers_are_written(0, header);
        assert(number::padded_decimal(header, 2) =~= seq!['0'] + number::decimal(header));
    } else {
        number::lemma_numbers_are_written(header / 10, header % 10);
        assert(10 * (header / 10) + header % 10 == header);
    }
    assert(front + stem + seq!['.'] + extension =~= front + stem + seq!['.', 'b']
        + number::padded_decimal(header, 2));
}

} // verus!
