use vstd::prelude::*;
use crate::error::DatasetError;
use crate::picture::{ClassifiedPicture, Picture, PictureClass, is_square};
use crate::resample::{resample, scale_raw_picture};

verus! {

/// Sentinel that opens a label stream.
pub const LABEL_MAGIC: u32 = 0x801;

/// Sentinel that opens an image stream.
pub const IMAGE_MAGIC: u32 = 0x803;

/// Length of the image stream's header: magic, count, rows, columns.
pub const IMAGE_HEADER: usize = 16;

/// Length of the label stream's header: magic, count.
pub const LABEL_HEADER: usize = 8;

/// The big-endian 32-bit integer at `at`.
pub open spec fn be32(b: Seq<u8>, at: int) -> int {
    b[at] as int * 16777216 + b[at + 1] as int * 65536 + b[at + 2] as int * 256 + b[at + 3] as int
}

/// Reads the big-endian 32-bit integer at `at`.
pub fn read_next_u32(b: &Vec<u8>, at: usize) -> (r: u32)
    requires
        at + 4 <= b@.len(),
    ensures
        r as int == be32(b@, at as int),
{
    let len = b.len();
    assert(at + 4 <= len);
    (b[at] as u32) * 16777216 + (b[at + 1] as u32) * 65536 + (b[at + 2] as u32) * 256 + (b[at + 3] as u32)
}

/// What is wrong with a label stream, if anything.
pub open spec fn label_error(b: Seq<u8>) -> Option<DatasetError> {
    if b.len() < 4 {
        Some(DatasetError::ShortRead)
    } else if be32(b, 0) != LABEL_MAGIC {
        Some(DatasetError::BadMagic)
    } else if b.len() < LABEL_HEADER {
        Some(DatasetError::ShortRead)
    } else if b.len() < LABEL_HEADER + be32(b, 4) {
        Some(DatasetError::ShortRead)
    } else {
        None
    }
}

/// The labels of a well-formed label stream, each byte widened.
pub open spec fn labels_of(b: Seq<u8>) -> Seq<PictureClass> {
    Seq::new(be32(b, 4) as nat, |i: int| PictureClass { numerical_value: b[LABEL_HEADER + i] as i32 })
}

/// Parses a label stream.
pub fn parse_labels(bytes: &Vec<u8>) -> (r: Result<Vec<PictureClass>, DatasetError>)
    ensures
        match r {
            Ok(v) => label_error(bytes@) is None && v@ == labels_of(bytes@),
            Err(e) => label_error(bytes@) == Some(e),
        },
{
    if bytes.len() < 4 {
        return Err(DatasetError::ShortRead);
    }
    let magic = read_next_u32(bytes, 0);
    if magic != LABEL_MAGIC {
        return Err(DatasetError::BadMagic);
    }
    if bytes.len() < LABEL_HEADER {
        return Err(DatasetError::ShortRead);
    }
    let n = read_next_u32(bytes, 4) as usize;
    if bytes.len() - LABEL_HEADER < n {
        return Err(DatasetError::ShortRead);
    }
    let mut out: Vec<PictureClass> = Vec::new();
    let mut i: usize = 0;
    while i < n
        invariant
            i <= n,
            n == be32(bytes@, 4),
            LABEL_HEADER + n <= bytes@.len(),
            bytes@.len() <= usize::MAX,
            out@.len() == i,
            forall|k: int| 0 <= k < i ==> #[trigger] out@[k] == labels_of(bytes@)[k],
        decreases n - i,
    {
        out.push(PictureClass { numerical_value: bytes[LABEL_HEADER + i] as i32 });
        i = i + 1;
    }
    assert(out@ =~= labels_of(bytes@));
    Ok(out)
}


/// Number of records an image stream announces.
pub open spec fn image_count(b: Seq<u8>) -> int {
    be32(b, 4)
}

/// Side length of the records of an image stream.
pub open spec fn image_side(b: Seq<u8>) -> int {
    be32(b, 8)
}

/// What is wrong with an image stream, if anything.
pub open spec fn image_error(b: Seq<u8>) -> Option<DatasetError> {
    let n = image_count(b);
    let s = image_side(b);
    if b.len() < 4 {
        Some(DatasetError::ShortRead)
    } else if be32(b, 0) != IMAGE_MAGIC {
        Some(DatasetError::BadMagic)
    } else if b.len() < IMAGE_HEADER {
        Some(DatasetError::ShortRead)
    } else if be32(b, 8) != be32(b, 12) {
        Some(DatasetError::NonSquareImage)
    } else if n > 0 && s == 0 {
        Some(DatasetError::EmptyImage)
    } else if b.len() < IMAGE_HEADER + n * (s * s) {
        Some(DatasetError::ShortRead)
    } else {
        None
    }
}

/// The `k`-th record of an image stream at its native side `s`, row by row.
pub open spec fn raw_image(b: Seq<u8>, k: int, s: int) -> Seq<Seq<u8>> {
    Seq::new(
        s as nat,
        |a: int| b.subrange(IMAGE_HEADER + k * (s * s) + a * s, IMAGE_HEADER + k * (s * s) + a * s + s),
    )
}

/// The records of a well-formed image stream, each brought to side `res`.
pub open spec fn pictures_of(b: Seq<u8>, res: nat) -> Seq<Seq<Seq<u8>>> {
    Seq::new(image_count(b) as nat, |k: int| resample(raw_image(b, k, image_side(b)), res))
}

/// Reads the record that starts at `start` and brings it to side `resolution`.
fn read_next_picture(bytes: &Vec<u8>, start: usize, side: usize, resolution: usize) -> (r: Picture)
    requires
        resolution > 0,
        side > 0,
        start + side * side <= bytes@.len(),
    ensures
        r.wf(),
        r.side() == resolution,
        r@ == resample(
            Seq::new(side as nat, |a: int| bytes@.subrange(start + a * side, start + a * side + side)),
            resolution as nat,
        ),
{
    let ghost want = Seq::new(side as nat, |a: int| bytes@.subrange(start + a * side, start + a * side + side));
    let len = bytes.len();
    let mut raw: Vec<Vec<u8>> = Vec::new();
    let mut a: usize = 0;
    while a < side
        invariant
            a <= side,
            start + side * side <= bytes@.len(),
            bytes@.len() == len,
            want == Seq::new(side as nat, |a: int| bytes@.subrange(start + a * side, start + a * side + side)),
            raw@.len() == a,
            forall|k: int| 0 <= k < a ==> #[trigger] raw@[k]@ == want[k],
        decreases side - a,
    {
        assert(a * side + side <= side * side) by (nonlinear_arith)
            requires a < side;
        let row_start = start + a * side;
        let mut row: Vec<u8> = Vec::new();
        let mut j: usize = 0;
        while j < side
            invariant
                j <= side,
                row_start + side <= bytes@.len(),
                bytes@.len() == len,
                row@ == bytes@.subrange(row_start as int, row_start + j),
            decreases side - j,
        {
            row.push(bytes[row_start + j]);
            j = j + 1;
        }
        assert(row@ == want[a as int]);
        raw.push(row);
        a = a + 1;
    }
    assert(raw@.map_values(|row: Vec<u8>| row@) =~= want);
    assert(is_square(want)) by {
        assert forall|a: int| 0 <= a < want.len() implies #[trigger] want[a].len() == want.len() by {
            assert(a * side + side <= side * side) by (nonlinear_arith)
                requires 0 <= a < side;
        }
    }
    scale_raw_picture(raw, resolution)
}

/// Parses an image stream, bringing each record to side `resolution`.
pub fn parse_pictures(bytes: &Vec<u8>, resolution: usize) -> (r: Result<Vec<Picture>, DatasetError>)
    requires
        resolution > 0,
    ensures
        match r {
            Ok(v) => image_error(bytes@) is None && v@.len() == image_count(bytes@) && forall|k: int|
                0 <= k < v@.len() ==> {
                    &&& (#[trigger] v@[k]).wf()
                    &&& v@[k].side() == resolution
                    &&& v@[k]@ == pictures_of(bytes@, resolution as nat)[k]
                },
            Err(e) => image_error(bytes@) == Some(e),
        },
{
    let len = bytes.len();
    if len < 4 {
        return Err(DatasetError::ShortRead);
    }
    let magic = read_next_u32(bytes, 0);
    if magic != IMAGE_MAGIC {
        return Err(DatasetError::BadMagic);
    }
    if len < IMAGE_HEADER {
        return Err(DatasetError::ShortRead);
    }
    let n = read_next_u32(bytes, 4) as usize;
    let rows = read_next_u32(bytes, 8);
    let cols = read_next_u32(bytes, 12);
    if rows != cols {
        return Err(DatasetError::NonSquareImage);
    }
    let s = rows as usize;
    if n > 0 && s == 0 {
        return Err(DatasetError::EmptyImage);
    }
    let body = len - IMAGE_HEADER;
    let mut out: Vec<Picture> = Vec::new();
    if n == 0 {
        assert(image_error(bytes@) is None);
        assert(out@.len() == image_count(bytes@));
        return Ok(out);
    }
    if s > body / s {
        assert(s * s > body) by (nonlinear_arith)
            requires s > body / s, s > 0;
        assert(n * (s * s) >= s * s) by (nonlinear_arith)
            requires n >= 1, s >= 0;
        return Err(DatasetError::ShortRead);
    }
    assert(s * s <= body) by (nonlinear_arith)
        requires s <= body / s, s > 0;
    let per = s * s;
    assert(per > 0) by (nonlinear_arith)
        requires per == s * s, s > 0;
    if n > body / per {
        assert(n * per > body) by (nonlinear_arith)
            requires n > body / per, per > 0;
        return Err(DatasetError::ShortRead);
    }
    assert(n * per <= body) by (nonlinear_arith)
        requires n <= body / per, per > 0;
    let mut k: usize = 0;
    let mut start: usize = IMAGE_HEADER;
    while k < n
        invariant
            k <= n,
            n == image_count(bytes@),
            s == image_side(bytes@),
            s > 0,
            per == s * s,
            per > 0,
            len == bytes@.len(),
            IMAGE_HEADER + n * per <= bytes@.len(),
            start == IMAGE_HEADER + k * per,
            resolution > 0,
            out@.len() == k,
            forall|i: int|
                0 <= i < k ==> {
                    &&& (#[trigger] out@[i]).wf()
                    &&& out@[i].side() == resolution
                    &&& out@[i]@ == pictures_of(bytes@, resolution as nat)[i]
                },
        decreases n - k,
    {
        assert(k * per + per <= n * per) by (nonlinear_arith)
            requires k < n, per >= 0;
        let p = read_next_picture(bytes, start, s, resolution);
        assert(Seq::new(s as nat, |a: int| bytes@.subrange(start + a * s, start + a * s + s))
            =~= raw_image(bytes@, k as int, s as int));
        out.push(p);
        start = start + per;
        k = k + 1;
        assert(start == IMAGE_HEADER + k * per) by (nonlinear_arith)
            requires start == IMAGE_HEADER + (k - 1) * per + per;
    }
    Ok(out)
}


/// What is wrong with a pair of label and image streams, if anything: the label
/// stream is checked first, then the image stream, then that their counts agree.
pub open spec fn dataset_error(lb: Seq<u8>, pb: Seq<u8>) -> Option<DatasetError> {
    if label_error(lb) is Some {
        label_error(lb)
    } else if image_error(pb) is Some {
        image_error(pb)
    } else if be32(lb, 4) != image_count(pb) {
        Some(DatasetError::CountMismatch)
    } else {
        None
    }
}

/// Parses a label stream and an image stream and pairs their records in stream
/// order, each picture brought to side `resolution`.
pub fn parse_pic_dataset(label_bytes: &Vec<u8>, picture_bytes: &Vec<u8>, resolution: usize) -> (r:
    Result<Vec<ClassifiedPicture>, DatasetError>)
    requires
        resolution > 0,
    ensures
        match r {
            Ok(v) => dataset_error(label_bytes@, picture_bytes@) is None && v@.len() == image_count(
                picture_bytes@,
            ) && forall|k: int|
                0 <= k < v@.len() ==> {
                    &&& (#[trigger] v@[k]).picture.wf()
                    &&& v@[k].picture.side() == resolution
                    &&& v@[k].picture@ == pictures_of(picture_bytes@, resolution as nat)[k]
                    &&& v@[k].class == labels_of(label_bytes@)[k]
                },
            Err(e) => dataset_error(label_bytes@, picture_bytes@) == Some(e),
        },
{
    let labels = match parse_labels(label_bytes) {
        Ok(v) => v,
        Err(e) => return Err(e),
    };
    let mut pictures = match parse_pictures(picture_bytes, resolution) {
        Ok(v) => v,
        Err(e) => return Err(e),
    };
    if labels.len() != pictures.len() {
        return Err(DatasetError::CountMismatch);
    }
    let n = pictures.len();
    let ghost pics = pictures@;
    let mut reversed: Vec<Picture> = Vec::new();
    while pictures.len() > 0
        invariant
            n == pics.len(),
            pictures@ == pics.subrange(0, pictures@.len() as int),
            reversed@.len() + pictures@.len() == n,
            forall|k: int| 0 <= k < reversed@.len() ==> #[trigger] reversed@[k] == pics[n - 1 - k],
        decreases pictures@.len(),
    {
        let p = pictures.pop().unwrap();
        reversed.push(p);
    }
    let mut out: Vec<ClassifiedPicture> = Vec::new();
    let mut i: usize = 0;
    while i < n
        invariant
            i <= n,
            n == pics.len(),
            labels@.len() == n,
            reversed@.len() == n - i,
            forall|k: int| 0 <= k < reversed@.len() ==> #[trigger] reversed@[k] == pics[n - 1 - k],
            out@.len() == i,
            forall|k: int| 0 <= k < i ==> (#[trigger] out@[k]).picture == pics[k] && out@[k].class == labels@[k],
        decreases n - i,
    {
        let p = reversed.pop().unwrap();
        out.push(ClassifiedPicture { picture: p, class: labels[i] });
        i = i + 1;
    }
    Ok(out)
}

} // verus!
