//! Profile pictures: which pictures are taken, what is made of them, and their
//! revisions.

use vstd::prelude::*;
use image::imageops::FilterType;
use image::metadata::Orientation;
use image::{DynamicImage, ImageDecoder, ImageFormat, ImageReader, Limits, RgbaImage};
use std::io::Cursor;
use crate::config::{is_configured, is_player, Config, ConfigModel};
use crate::feedback::{in_order, lemma_in_order};
use crate::order::{ascending, insert_ascending};
use crate::pieces::{after_prefix, split, split_by, strip_prefix};
use crate::table::{any, find_key, first, keyed, lemma_first, put, put_for, rows, value_for};
use crate::text::{joined, same, signed_decimal, signed_number, texts, trim, trimmed};

verus! {

/// How many bytes a picture may have when it is uploaded.
pub const MAX_UPLOAD: usize = 2_097_152;

/// How wide and how high a picture may be.
pub const MAX_DIMENSION: u32 = 4096;

/// How many pixels a picture may have.
pub const MAX_PIXELS: u64 = 16_777_216;

/// How many bytes a picture may take up when it is decoded.
pub const MAX_DECODED: u64 = 67_108_864;

/// How wide and how high a profile picture is.
pub const SIZE: u32 = 256;

/// Why a picture is not taken.
#[derive(Clone, Copy, Debug, PartialEq, Eq, Structural)]
pub enum PictureError {
    /// It has too many bytes.
    TooManyBytes,
    /// It is not a picture of a kind that is taken.
    Invalid,
    /// It is too wide, too high or too large.
    TooLarge,
    /// It could not be written.
    Failed,
}

impl PictureError {
    /// What the player is told.
    pub open spec fn said(self) -> Seq<char> {
        match self {
            PictureError::TooManyBytes => "Choose a picture smaller than 2 MiB."@,
            PictureError::Invalid => "Choose a valid JPEG or PNG picture."@,
            PictureError::TooLarge => "Choose a picture no larger than 4096 by 4096 pixels."@,
            PictureError::Failed => "The picture could not be processed."@,
        }
    }

    /// What the player is told.
    pub fn message(&self) -> (res: &'static str)
        ensures
            res@ == self.said(),
    {
        match self {
            PictureError::TooManyBytes => "Choose a picture smaller than 2 MiB.",
            PictureError::Invalid => "Choose a valid JPEG or PNG picture.",
            PictureError::TooLarge => "Choose a picture no larger than 4096 by 4096 pixels.",
            PictureError::Failed => "The picture could not be processed.",
        }
    }
}

/// Whether bytes begin with the signature of a PNG file.
pub open spec fn is_png(bytes: Seq<u8>) -> bool {
    bytes.len() >= 8 && bytes.take(8) == seq![0x89u8, 0x50u8, 0x4eu8, 0x47u8, 0x0du8, 0x0au8, 0x1au8, 0x0au8]
}

/// Whether bytes begin as a JPEG file does.
pub open spec fn is_jpeg(bytes: Seq<u8>) -> bool {
    bytes.len() >= 3 && bytes.take(3) == seq![0xffu8, 0xd8u8, 0xffu8]
}

/// The width, the height and the decoded size in bytes of a picture, PNG or
/// JPEG, or nothing where it cannot be opened within limits on its width and
/// height and on what is allocated.
pub uninterp spec fn measured(bytes: Seq<u8>, png: bool, dimension: int, alloc: int) -> Option<(int, int, int)>;

/// How a picture is to be turned to be seen as it is meant to be, by the number
/// that Exif has for it, or nothing where its metadata cannot be read.
pub uninterp spec fn orientation_of(bytes: Seq<u8>, png: bool, dimension: int, alloc: int) -> Option<int>;

/// The pixels, as red, green, blue and alpha, of a square of a picture, turned
/// as an Exif number says, that begins at a place and has an edge, scaled to a
/// size with a triangle filter, or nothing where the picture cannot be decoded.
pub uninterp spec fn scaled(
    bytes: Seq<u8>,
    png: bool,
    dimension: int,
    alloc: int,
    turn: int,
    x: int,
    y: int,
    edge: int,
    size: int,
) -> Option<Seq<u8>>;

/// A square picture of some pixels, written as a PNG file, or nothing where
/// that fails.
pub uninterp spec fn png_of(pixels: Seq<u8>, size: int) -> Option<Seq<u8>>;

/// `image::guess_format` tells the format of a file by its first bytes: eight
/// of them are those of every PNG file, three those of every JPEG file, and
/// neither are those of any other format.
#[verifier::external_body]
fn guess(bytes: &[u8]) -> (res: (bool, bool))
    ensures
        res.0 == is_png(bytes@),
        res.1 == is_jpeg(bytes@),
{
    let format = image::guess_format(bytes).ok();
    (format == Some(ImageFormat::Png), format == Some(ImageFormat::Jpeg))
}

/// `image::ImageReader::into_decoder`, with `dimensions` and `total_bytes` of
/// the decoder: they depend on the bytes, the format and the limits alone.
#[verifier::external_body]
fn measure(bytes: &[u8], png: bool, dimension: u32, alloc: u64) -> (res: Option<(u32, u32, u64)>)
    ensures
        match res {
            Some((w, h, total)) => measured(bytes@, png, dimension as int, alloc as int) == Some(
                (w as int, h as int, total as int),
            ),
            None => measured(bytes@, png, dimension as int, alloc as int) is None,
        },
{
    let mut limits = Limits::default();
    limits.max_image_width = Some(dimension);
    limits.max_image_height = Some(dimension);
    limits.max_alloc = Some(alloc);
    let mut reader = ImageReader::with_format(Cursor::new(bytes), if png { ImageFormat::Png } else { ImageFormat::Jpeg });
    reader.limits(limits);
    let decoder = reader.into_decoder().ok()?;
    let (width, height) = decoder.dimensions();
    Some((width, height, decoder.total_bytes()))
}

/// `image::ImageDecoder::orientation` and `image::metadata::Orientation::to_exif`,
/// which gives a number from 1 to 8. It depends on the bytes, the format and the
/// limits alone.
#[verifier::external_body]
fn orientation(bytes: &[u8], png: bool, dimension: u32, alloc: u64) -> (res: Option<u8>)
    ensures
        match res {
            Some(n) => orientation_of(bytes@, png, dimension as int, alloc as int) == Some(n as int) && 1 <= n <= 8,
            None => orientation_of(bytes@, png, dimension as int, alloc as int) is None,
        },
{
    let mut limits = Limits::default();
    limits.max_image_width = Some(dimension);
    limits.max_image_height = Some(dimension);
    limits.max_alloc = Some(alloc);
    let mut reader = ImageReader::with_format(Cursor::new(bytes), if png { ImageFormat::Png } else { ImageFormat::Jpeg });
    reader.limits(limits);
    let mut decoder = reader.into_decoder().ok()?;
    decoder.orientation().ok().map(|turn| turn.to_exif())
}

/// `image::DynamicImage::from_decoder`, `apply_orientation` with the turn that
/// `image::metadata::Orientation::from_exif` has for its number, `crop_imm`,
/// `resize_exact` and `to_rgba8`. The pixels depend on the arguments alone, and
/// there are four bytes for each pixel of the square.
#[verifier::external_body]
fn scale(bytes: &[u8], png: bool, dimension: u32, alloc: u64, turn: u8, x: u32, y: u32, edge: u32, size: u32) -> (res: Option<
    Vec<u8>,
>)
    requires
        1 <= turn <= 8,
        1 <= size <= 1024,
    ensures
        match res {
            Some(pixels) => scaled(
                bytes@,
                png,
                dimension as int,
                alloc as int,
                turn as int,
                x as int,
                y as int,
                edge as int,
                size as int,
            ) == Some(pixels@) && pixels@.len() == 4 * size * size,
            None => scaled(
                bytes@,
                png,
                dimension as int,
                alloc as int,
                turn as int,
                x as int,
                y as int,
                edge as int,
                size as int,
            ) is None,
        },
{
    let mut limits = Limits::default();
    limits.max_image_width = Some(dimension);
    limits.max_image_height = Some(dimension);
    limits.max_alloc = Some(alloc);
    let mut reader = ImageReader::with_format(Cursor::new(bytes), if png { ImageFormat::Png } else { ImageFormat::Jpeg });
    reader.limits(limits);
    let mut picture = DynamicImage::from_decoder(reader.into_decoder().ok()?).ok()?;
    picture.apply_orientation(Orientation::from_exif(turn)?);
    let square = picture.crop_imm(x, y, edge, edge);
    let small = square.resize_exact(size, size, FilterType::Triangle);
    Some(small.to_rgba8().into_raw())
}

/// `image::RgbaImage::from_raw` and `image::DynamicImage::write_to` write a PNG
/// file of some pixels, which depends on them alone. The file begins as every
/// PNG file does, and when it is opened again, within limits that allow it, it
/// has the same size, and four bytes for each pixel.
#[verifier::external_body]
fn write_png(pixels: Vec<u8>, size: u32) -> (res: Option<Vec<u8>>)
    requires
        1 <= size <= 1024,
        pixels@.len() == 4 * size * size,
    ensures
        match res {
            Some(file) => png_of(pixels@, size as int) == Some(file@) && is_png(file@),
            None => png_of(pixels@, size as int) is None,
        },
        res matches Some(file) ==> measured(file@, true, MAX_DIMENSION as int, MAX_DECODED as int) == Some(
            (size as int, size as int, 4 * size * size),
        ),
{
    let picture = RgbaImage::from_raw(size, size, pixels)?;
    let mut file = Cursor::new(Vec::new());
    DynamicImage::ImageRgba8(picture).write_to(&mut file, ImageFormat::Png).ok()?;
    Some(file.into_inner())
}

/// Whether a picture is of a size that is taken.
pub open spec fn is_fit(width: int, height: int, total: int) -> bool {
    &&& 0 < width <= MAX_DIMENSION
    &&& 0 < height <= MAX_DIMENSION
    &&& width * height <= MAX_PIXELS
    &&& total <= MAX_DECODED
}

/// Whether a picture is of a size that is taken.
pub fn fits(width: u32, height: u32, total: u64) -> (res: bool)
    ensures
        res == is_fit(width as int, height as int, total as int),
{
    if width == 0 || height == 0 || width > MAX_DIMENSION || height > MAX_DIMENSION {
        return false;
    }
    assert(width * height <= 4096 * 4096) by (nonlinear_arith)
        requires
            0 < width <= 4096,
            0 < height <= 4096,
    ;
    width as u64 * height as u64 <= MAX_PIXELS && total <= MAX_DECODED
}

/// Whether a turn, by its Exif number, swaps the width and the height.
pub open spec fn swaps(turn: int) -> bool {
    turn >= 5
}

/// The largest square in the middle of a picture: where it begins, and its
/// edge.
pub open spec fn middle_square(width: int, height: int) -> (int, int, int) {
    let edge = if width < height {
        width
    } else {
        height
    };
    ((width - edge) / 2, (height - edge) / 2, edge)
}

/// The largest square in the middle of a picture, which is turned first.
pub fn square(width: u32, height: u32, turn: u8) -> (res: (u32, u32, u32))
    ensures
        (res.0 as int, res.1 as int, res.2 as int) == (if swaps(turn as int) {
            middle_square(height as int, width as int)
        } else {
            middle_square(width as int, height as int)
        }),
{
    let (w, h): (u32, u32) = if turn >= 5 {
        (height, width)
    } else {
        (width, height)
    };
    let edge: u32 = if w < h {
        w
    } else {
        h
    };
    ((w - edge) / 2, (h - edge) / 2, edge)
}

/// The largest square in the middle of a picture lies within it, touches two
/// opposite sides, and is off the middle by half a pixel at most.
pub proof fn law_the_square_is_centered(width: int, height: int)
    requires
        0 < width,
        0 < height,
    ensures
        ({
            let (x, y, edge) = middle_square(width, height);
            &&& 0 <= x && x + edge <= width
            &&& 0 <= y && y + edge <= height
            &&& edge == width || edge == height
            &&& 0 <= width - edge - 2 * x <= 1
            &&& 0 <= height - edge - 2 * y <= 1
        }),
{
}

/// What is made of a picture that was opened and measured: a square from its
/// middle, of a fixed size, as a fresh file.
pub open spec fn pictured(bytes: Seq<u8>, png: bool, width: int, height: int, total: int) -> Result<Seq<u8>, PictureError> {
    let d = MAX_DIMENSION as int;
    let a = MAX_DECODED as int;
    if !is_fit(width, height, total) {
        Err(PictureError::TooLarge)
    } else {
        match orientation_of(bytes, png, d, a) {
            None => Err(PictureError::Invalid),
            Some(turn) => {
                let (x, y, edge) = if swaps(turn) {
                    middle_square(height, width)
                } else {
                    middle_square(width, height)
                };
                match scaled(bytes, png, d, a, turn, x, y, edge, SIZE as int) {
                    None => Err(PictureError::Invalid),
                    Some(pixels) => match png_of(pixels, SIZE as int) {
                        None => Err(PictureError::Failed),
                        Some(file) => Ok(file),
                    },
                }
            },
        }
    }
}

/// What is made of an uploaded picture.
pub open spec fn normalized(bytes: Seq<u8>) -> Result<Seq<u8>, PictureError> {
    if bytes.len() > MAX_UPLOAD {
        Err(PictureError::TooManyBytes)
    } else if !is_png(bytes) && !is_jpeg(bytes) {
        Err(PictureError::Invalid)
    } else {
        match measured(bytes, is_png(bytes), MAX_DIMENSION as int, MAX_DECODED as int) {
            None => Err(PictureError::Invalid),
            Some((width, height, total)) => pictured(bytes, is_png(bytes), width, height, total),
        }
    }
}

/// A result, as bytes.
pub open spec fn file_view(res: Result<Vec<u8>, PictureError>) -> Result<Seq<u8>, PictureError> {
    match res {
        Ok(file) => Ok(file@),
        Err(e) => Err(e),
    }
}

/// Make a profile picture of an uploaded one: the square in its middle, scaled,
/// as a fresh file, so that original EXIF/location and other file metadata
/// cannot be copied into the publicly displayed picture.
pub fn normalize(bytes: &[u8]) -> (res: Result<Vec<u8>, PictureError>)
    ensures
        file_view(res) == normalized(bytes@),
        res matches Ok(file) ==> is_png(file@) && measured(
            file@,
            true,
            MAX_DIMENSION as int,
            MAX_DECODED as int,
        ) == Some((SIZE as int, SIZE as int, 4 * SIZE * SIZE)),
{
    if bytes.len() > MAX_UPLOAD {
        return Err(PictureError::TooManyBytes);
    }
    let (png, jpeg) = guess(bytes);
    if !png && !jpeg {
        return Err(PictureError::Invalid);
    }
    let (width, height, total): (u32, u32, u64) = match measure(bytes, png, MAX_DIMENSION, MAX_DECODED) {
        Some(found) => found,
        None => {
            return Err(PictureError::Invalid);
        },
    };
    if !fits(width, height, total) {
        return Err(PictureError::TooLarge);
    }
    let turn: u8 = match orientation(bytes, png, MAX_DIMENSION, MAX_DECODED) {
        Some(turn) => turn,
        None => {
            return Err(PictureError::Invalid);
        },
    };
    let (x, y, edge): (u32, u32, u32) = square(width, height, turn);
    match scale(bytes, png, MAX_DIMENSION, MAX_DECODED, turn, x, y, edge, SIZE) {
        Some(pixels) => match write_png(pixels, SIZE) {
            Some(file) => Ok(file),
            None => Err(PictureError::Failed),
        },
        None => Err(PictureError::Invalid),
    }
}

/// Whether two pictures are turned alike and have, turned that way, the same
/// pixels in every square.
pub open spec fn same_pixels(a: Seq<u8>, b: Seq<u8>, png: bool) -> bool {
    let d = MAX_DIMENSION as int;
    let m = MAX_DECODED as int;
    &&& orientation_of(a, png, d, m) == orientation_of(b, png, d, m)
    &&& orientation_of(a, png, d, m) matches Some(turn) ==> forall|x: int, y: int, edge: int| #[trigger]
        scaled(a, png, d, m, turn, x, y, edge, SIZE as int) == scaled(b, png, d, m, turn, x, y, edge, SIZE as int)
}

/// The file of a profile picture depends on its pixels alone: two pictures with
/// the same pixels in the middle square give the same file, whatever else they
/// hold.
pub proof fn law_pictures_keep_nothing_but_pixels(a: Seq<u8>, b: Seq<u8>, png: bool, width: int, height: int, total: int)
    ensures
        same_pixels(a, b, png) ==> pictured(a, png, width, height, total) == pictured(b, png, width, height, total),
{
}

/// A profile picture as it is kept: its revision, and the picture, if it has
/// not been removed.
#[derive(Clone, Debug)]
pub struct Avatar {
    pub revision: i64,
    pub image: Option<Vec<u8>>,
}

/// A profile picture as it is kept, as numbers and bytes.
pub struct AvatarModel {
    pub revision: int,
    pub image: Option<Seq<u8>>,
}

impl View for Avatar {
    type V = AvatarModel;

    open spec fn view(&self) -> AvatarModel {
        AvatarModel {
            revision: self.revision as int,
            image: match self.image {
                Some(bytes) => Some(bytes@),
                None => None,
            },
        }
    }
}

/// The profile pictures of all players.
#[derive(Clone, Debug)]
pub struct Avatars {
    pub entries: Vec<(String, Avatar)>,
}

impl View for Avatars {
    type V = Seq<(Seq<char>, AvatarModel)>;

    open spec fn view(&self) -> Seq<(Seq<char>, AvatarModel)> {
        rows(self.entries@)
    }
}

/// The last revision of a player's picture, or zero.
pub open spec fn revision_of(m: Seq<(Seq<char>, AvatarModel)>, user: Seq<char>) -> int {
    match value_for(m, user) {
        Some(a) => a.revision,
        None => 0,
    }
}

/// The picture of a player, with its revision.
pub open spec fn picture_of(m: Seq<(Seq<char>, AvatarModel)>, user: Seq<char>) -> Option<(int, Seq<u8>)> {
    match value_for(m, user) {
        Some(a) => match a.image {
            Some(bytes) => Some((a.revision, bytes)),
            None => None,
        },
        None => None,
    }
}

/// What is kept after a picture was set or removed.
pub open spec fn saved(m: Seq<(Seq<char>, AvatarModel)>, user: Seq<char>, image: Option<Seq<u8>>) -> Seq<(Seq<char>, AvatarModel)> {
    put_for(m, user, AvatarModel { revision: revision_of(m, user) + 1, image })
}

/// An optional picture, as bytes.
pub open spec fn image_view(image: Option<Vec<u8>>) -> Option<Seq<u8>> {
    match image {
        Some(bytes) => Some(bytes@),
        None => None,
    }
}

/// Whether a player has a picture and is configured.
pub open spec fn has_picture(c: ConfigModel, m: Seq<(Seq<char>, AvatarModel)>) -> spec_fn(Seq<char>) -> bool {
    |user: Seq<char>| is_player(c, user) && picture_of(m, user) is Some
}

/// Players with the revisions of their pictures.
pub open spec fn revisions(m: Seq<(Seq<char>, AvatarModel)>, users: Seq<Seq<char>>) -> Seq<(Seq<char>, Seq<char>)> {
    users.map_values(|user: Seq<char>| (user, signed_decimal(revision_of(m, user))))
}

impl Avatars {
    /// No picture is kept.
    pub fn new() -> (res: Avatars)
        ensures
            res@.len() == 0,
    {
        Avatars { entries: Vec::new() }
    }

    /// Set or remove the picture of a player. Retain a tombstone when removing a
    /// picture: a later upload must not reuse an earlier revision.
    pub fn save(&mut self, user: &str, image: Option<Vec<u8>>) -> (res: i64)
        requires
            revision_of(old(self)@, user@) < i64::MAX,
        ensures
            res == revision_of(old(self)@, user@) + 1,
            final(self)@ == saved(old(self)@, user@, image_view(image)),
    {
        let ghost before = self@;
        let revision: i64 = match find_key(&self.entries, user) {
            Some(i) => {
                assert(before[i as int].1 == self.entries@[i as int].1@);
                self.entries[i].1.revision + 1
            },
            None => 1,
        };
        let avatar = Avatar { revision, image };
        assert(avatar@ == (AvatarModel { revision: revision as int, image: image_view(image) }));
        put(&mut self.entries, user, avatar);
        revision
    }

    /// The picture of a player, with its revision.
    pub fn picture(&self, user: &str) -> (res: Option<(i64, Vec<u8>)>)
        ensures
            match res {
                Some((revision, bytes)) => picture_of(self@, user@) == Some((revision as int, bytes@)),
                None => picture_of(self@, user@) is None,
            },
    {
        match find_key(&self.entries, user) {
            Some(i) => {
                assert(self@[i as int].1 == self.entries@[i as int].1@);
                match &self.entries[i].1.image {
                    Some(bytes) => {
                        let copy = bytes.clone();
                        assert(copy@ =~= bytes@);
                        Some((self.entries[i].1.revision, copy))
                    },
                    None => None,
                }
            },
            None => None,
        }
    }

    fn revision(&self, user: &str) -> (res: String)
        ensures
            res@ == signed_decimal(revision_of(self@, user@)),
    {
        match find_key(&self.entries, user) {
            Some(i) => {
                assert(self@[i as int].1 == self.entries@[i as int].1@);
                signed_number(self.entries[i].1.revision)
            },
            None => signed_number(0),
        }
    }

    fn pictured_users(&self, config: &Config) -> (res: Vec<String>)
        ensures
            texts(res@) == in_order(has_picture(config@, self@)),
    {
        let ghost m = self@;
        let ghost test = has_picture(config@, m);
        let mut list: Vec<String> = Vec::new();
        let mut i: usize = 0;
        assert(texts(list@) =~= Seq::<Seq<char>>::empty());
        while i < self.entries.len()
            invariant
                m == rows(self.entries@),
                m == self@,
                test == has_picture(config@, m),
                i <= self.entries@.len(),
                ascending(texts(list@)),
                forall|s: Seq<char>| #[trigger]
                    texts(list@).contains(s) <==> any(m.take(i as int), keyed(s)) && test(s),
            decreases self.entries@.len() - i,
        {
            let ghost before = texts(list@);
            let user = self.entries[i].0.as_str();
            assert(m[i as int].0 == user@);
            if is_configured(config, user) && self.picture(user).is_some() {
                assert(rows(list@) =~= before);
                insert_ascending(&mut list, user.to_owned());
                assert(rows(list@) =~= texts(list@));
            }
            proof {
                assert forall|s: Seq<char>| #[trigger]
                    texts(list@).contains(s) <==> any(m.take(i + 1), keyed(s)) && test(s) by {
                    assert(before.contains(s) <==> any(m.take(i as int), keyed(s)) && test(s));
                    crate::sharing::lemma_any_next(m, keyed(s), i as int);
                }
            }
            i = i + 1;
        }
        proof {
            assert(m.take(i as int) =~= m);
            assert forall|s: Seq<char>| #[trigger] texts(list@).contains(s) <==> test(s) by {
                lemma_first(m, keyed(s));
            }
            lemma_in_order(texts(list@), test);
        }
        list
    }

    /// The configured players who have a picture, with its revision, in order.
    pub fn list(&self, config: &Config) -> (res: Vec<(String, String)>)
        ensures
            rows(res@) == revisions(self@, in_order(has_picture(config@, self@))),
    {
        let users = self.pictured_users(config);
        let ghost all = texts(users@);
        let mut list: Vec<(String, String)> = Vec::new();
        let mut i: usize = 0;
        assert(rows(list@) =~= revisions(self@, all.take(0)));
        while i < users.len()
            invariant
                all == texts(users@),
                i <= users@.len(),
                rows(list@) == revisions(self@, all.take(i as int)),
            decreases users@.len() - i,
        {
            let user = users[i].as_str();
            crate::table::append(&mut list, (user.to_owned(), self.revision(user)));
            proof {
                assert(all.take(i + 1) =~= all.take(i as int).push(user@));
                assert(rows(list@) =~= revisions(self@, all.take(i + 1)));
            }
            i = i + 1;
        }
        assert(all.take(i as int) =~= all);
        list
    }
}

/// Revisions grow, even when a picture is removed and set again, a picture
/// that was set is found, and other players keep theirs.
pub proof fn law_revisions_are_never_reused(m: Seq<(Seq<char>, AvatarModel)>, user: Seq<char>, image: Option<Seq<u8>>, other: Seq<char>)
    ensures
        revision_of(saved(m, user, image), user) == revision_of(m, user) + 1,
        picture_of(saved(m, user, image), user) == (match image {
            Some(bytes) => Some((revision_of(m, user) + 1, bytes)),
            None => None,
        }),
        other != user ==> picture_of(saved(m, user, image), other) == picture_of(m, other) && revision_of(
            saved(m, user, image),
            other,
        ) == revision_of(m, other),
{
    crate::table::law_put_is_found(
        m,
        user,
        AvatarModel { revision: revision_of(m, user) + 1, image },
        other,
    );
}

/// What a picture of a revision is known by.
pub open spec fn etag_of(revision: int) -> Seq<char> {
    "\"avatar-"@ + signed_decimal(revision) + "\""@
}

/// What a picture of a revision is known by.
pub fn etag(revision: i64) -> (res: String)
    ensures
        res@ == etag_of(revision as int),
{
    let number = signed_number(revision);
    let head = joined("\"avatar-", number.as_str());
    joined(head.as_str(), "\"")
}

/// What follows the marks of weak validators at the beginning of a text.
pub open spec fn without_weak(s: Seq<char>) -> Seq<char>
    decreases s.len(),
{
    match after_prefix(s, "W/"@) {
        Some(rest) => if rest.len() < s.len() {
            without_weak(rest)
        } else {
            s
        },
        None => s,
    }
}

/// Whether a candidate names a picture: any picture, or its tag.
pub open spec fn names_picture(candidate: Seq<char>, revision: int) -> bool {
    trimmed(candidate) == "*"@ || without_weak(trimmed(candidate)) == etag_of(revision)
}

/// Whether one of some candidates names a picture.
pub open spec fn any_names(candidates: Seq<Seq<char>>, revision: int) -> bool {
    exists|i: int| 0 <= i < candidates.len() && names_picture(#[trigger] candidates[i], revision)
}

/// Whether a header that lists what a client has names a picture.
pub open spec fn header_names(value: Seq<char>, revision: int) -> bool {
    any_names(split_by(value, ","@), revision)
}

fn strip_weak(s: &str) -> (res: String)
    ensures
        res@ == without_weak(s@),
{
    proof {
        reveal_strlit("W/");
    }
    let mut left = s.to_owned();
    let mut more = true;
    let ghost mut n: nat = s@.len();
    while more
        invariant
            "W/"@.len() == 2,
            without_weak(s@) == without_weak(left@),
            n == left@.len(),
            !more ==> without_weak(left@) == left@,
        decreases n, (if more { 1int } else { 0int }),
    {
        match strip_prefix(left.as_str(), "W/") {
            Some(rest) => {
                left = rest;
                proof {
                    n = left@.len();
                }
            },
            None => {
                more = false;
            },
        }
    }
    left
}

fn header_names_picture(value: &str, revision: i64) -> (res: bool)
    ensures
        res == header_names(value@, revision as int),
{
    proof {
        reveal_strlit(",");
    }
    let tag = etag(revision);
    let candidates = split(value, ",");
    let ghost all = texts(candidates@);
    let mut i: usize = 0;
    while i < candidates.len()
        invariant
            all == texts(candidates@),
            all == split_by(value@, ","@),
            tag@ == etag_of(revision as int),
            i <= candidates@.len(),
            forall|k: int| 0 <= k < i ==> !names_picture(#[trigger] all[k], revision as int),
        decreases candidates@.len() - i,
    {
        let candidate = trim(candidates[i].as_str());
        assert(all[i as int] == candidates@[i as int]@);
        let bare = strip_weak(candidate.as_str());
        if same(candidate.as_str(), "*") || same(bare.as_str(), tag.as_str()) {
            assert(names_picture(all[i as int], revision as int));
            return true;
        }
        i = i + 1;
    }
    false
}

/// Whether a client has a picture already: one of the headers that list what
/// it has names the picture.
pub fn is_unchanged(headers: &[String], revision: i64) -> (res: bool)
    ensures
        res == exists|i: int| 0 <= i < headers@.len() && header_names((#[trigger] headers@[i])@, revision as int),
{
    let mut i: usize = 0;
    while i < headers.len()
        invariant
            i <= headers@.len(),
            forall|k: int| 0 <= k < i ==> !header_names((#[trigger] headers@[k])@, revision as int),
        decreases headers@.len() - i,
    {
        if header_names_picture(headers[i].as_str(), revision) {
            assert(header_names(headers@[i as int]@, revision as int));
            return true;
        }
        i = i + 1;
    }
    false
}

/// A PNG and a JPEG are told by their first bytes, and nothing is both.
pub proof fn law_pictures_are_told_by_their_first_bytes(bytes: Seq<u8>)
    ensures
        is_png(bytes) ==> bytes[0] == 0x89 && bytes[1] == 0x50 && bytes[2] == 0x4e && bytes[3] == 0x47,
        is_jpeg(bytes) ==> bytes[0] == 0xff && bytes[1] == 0xd8 && bytes[2] == 0xff,
        bytes.len() >= 3 && bytes[0] == 0xff && bytes[1] == 0xd8 && bytes[2] == 0xff ==> is_jpeg(bytes),
        !(is_png(bytes) && is_jpeg(bytes)),
        !is_png(bytes) && !is_jpeg(bytes) ==> normalized(bytes) is Err,
{
    let png = seq![0x89u8, 0x50u8, 0x4eu8, 0x47u8, 0x0du8, 0x0au8, 0x1au8, 0x0au8];
    let jpeg = seq![0xffu8, 0xd8u8, 0xffu8];
    if is_png(bytes) {
        assert(bytes[0] == bytes.take(8)[0] && bytes[1] == bytes.take(8)[1]);
        assert(bytes[2] == bytes.take(8)[2] && bytes[3] == bytes.take(8)[3]);
        assert(png[0] == 0x89 && png[1] == 0x50 && png[2] == 0x4e && png[3] == 0x47);
    }
    if is_jpeg(bytes) {
        assert(bytes[0] == bytes.take(3)[0] && bytes[1] == bytes.take(3)[1] && bytes[2] == bytes.take(3)[2]);
        assert(jpeg[0] == 0xff && jpeg[1] == 0xd8 && jpeg[2] == 0xff);
    }
    if bytes.len() >= 3 && bytes[0] == 0xff && bytes[1] == 0xd8 && bytes[2] == 0xff {
        assert(bytes.take(3) =~= jpeg);
    }
}

} // verus!
