//! Image records: their sizes, the density patch, and the high-resolution container.
use vstd::prelude::*;

use crate::bytes::{
    be32, be32_reads_back, length32, length32_plus, low32, low32_of_small, push_all, push_be32,
    push_zeros, read_be16, read_be32, zeros,
};
use crate::exth::{build_container_exth, container_records, exth_block, padding, size_text};
use crate::markup::{base32, base32_value, encode_base32, image_numbers_read_back};
use crate::records::contents;
use crate::text::{bytes_of, decimal, decimal_value, decimals_read_back, push_decimal, utf8};

verus! {

/// The image is a JPEG with a JFIF header that gives an aspect ratio but no density.
pub open spec fn lacks_density(data: Seq<u8>) -> bool {
    &&& data.len() > 13
    &&& data[0] == 0xFF
    &&& data[1] == 0xD8
    &&& data[2] == 0xFF
    &&& data[3] == 0xE0
    &&& data[6] == 0x4A
    &&& data[7] == 0x46
    &&& data[8] == 0x49
    &&& data[9] == 0x46
    &&& data[10] == 0x00
    &&& data[13] == 0x00
}

/// The image with its density given in dots per inch, without which covers do not
/// show on the lock screen.
pub open spec fn with_density(data: Seq<u8>) -> Seq<u8> {
    if lacks_density(data) {
        data.update(13, 0x01)
    } else {
        data
    }
}

/// Give the density of a JFIF image in dots per inch where it gives an aspect ratio
/// alone.
pub fn patch_jfif_density(data: &mut Vec<u8>)
    ensures
        final(data)@ == with_density(old(data)@),
{
    if data.len() > 13 && data[0] == 0xFF && data[1] == 0xD8 && data[2] == 0xFF && data[3] == 0xE0
        && data[6] == 0x4A && data[7] == 0x46 && data[8] == 0x49 && data[9] == 0x46 && data[10]
        == 0x00 && data[13] == 0x00 {
        data[13] = 0x01;
    }
}

/// The patch changes no other byte, and a patched image is left alone.
pub proof fn density_patch_is_stable(data: Seq<u8>)
    ensures
        with_density(data).len() == data.len(),
        forall|i: int| 0 <= i < data.len() && i != 13 ==> with_density(data)[i] == data[i],
        !lacks_density(with_density(data)),
        with_density(with_density(data)) == with_density(data),
{
}

/// A width and a height.
pub open spec fn size_of(width: int, height: int) -> Option<(u32, u32)> {
    Some((width as u32, height as u32))
}

/// The size that the first frame header at or after `i` gives: markers are stepped
/// over by their lengths, and the search ends at the image data.
pub open spec fn jpeg_size_from(data: Seq<u8>, i: int) -> Option<(u32, u32)>
    decreases
            if i < data.len() {
                data.len() - i
            } else {
                0
            },
{
    if i < 0 || i + 1 >= data.len() {
        None
    } else if data[i] != 0xFF {
        jpeg_size_from(data, i + 1)
    } else if data[i + 1] == 0xD8 || data[i + 1] == 0x00 {
        jpeg_size_from(data, i + 2)
    } else if data[i + 1] == 0xD9 || data[i + 1] == 0xDA {
        None
    } else if 0xC0 <= data[i + 1] <= 0xC3 {
        if i + 9 <= data.len() {
            size_of(read_be16(data, i + 7), read_be16(data, i + 5))
        } else {
            None
        }
    } else if i + 4 <= data.len() {
        jpeg_size_from(data, i + 2 + read_be16(data, i + 2))
    } else {
        None
    }
}

/// The bytes begin with the PNG signature.
pub open spec fn is_png(data: Seq<u8>) -> bool {
    data.take(8) == seq![0x89u8, 0x50, 0x4E, 0x47, 0x0D, 0x0A, 0x1A, 0x0A]
}

/// The size of a JPEG, PNG or GIF image; none if it cannot be told.
pub open spec fn image_size(data: Seq<u8>) -> Option<(u32, u32)> {
    if data.len() < 24 {
        None
    } else if data[0] == 0xFF && data[1] == 0xD8 {
        jpeg_size_from(data, 0)
    } else if is_png(data) && data.subrange(12, 16) == seq![0x49u8, 0x48, 0x44, 0x52] {
        size_of(read_be32(data, 16), read_be32(data, 20))
    } else if data.take(3) == seq![0x47u8, 0x49, 0x46] {
        size_of(data[6] + data[7] * 0x100, data[8] + data[9] * 0x100)
    } else {
        None
    }
}

fn number_at(data: &[u8], at: usize) -> (r: u32)
    requires
        at + 2 <= data@.len(),
    ensures
        r == read_be16(data@, at as int),
{
    let size: usize = data.len();
    data[at] as u32 * 0x100 + data[at + 1] as u32
}

/// The size of a JPEG image, by its first frame header.
pub fn get_jpeg_dimensions(data: &[u8]) -> (r: Option<(u32, u32)>)
    ensures
        r == jpeg_size_from(data@, 0),
{
    let size: usize = data.len();
    let mut i: usize = 0;
    while i < size && size - i > 1
        invariant
            size == data@.len(),
            jpeg_size_from(data@, 0) == jpeg_size_from(data@, i as int),
        decreases
                if i < size {
                    size - i
                } else {
                    0
                },
    {
        if data[i] != 0xFF {
            i += 1;
            continue ;
        }
        let marker: u8 = data[i + 1];
        if marker == 0xD8 || marker == 0x00 {
            i += 2;
        } else if marker == 0xD9 || marker == 0xDA {
            return None;
        } else if 0xC0 <= marker && marker <= 0xC3 {
            if size - i >= 9 {
                return Some((number_at(data, i + 7), number_at(data, i + 5)));
            }
            return None;
        } else if size - i >= 4 {
            let length: usize = number_at(data, i + 2) as usize;
            if length > size - i - 2 {
                assert(jpeg_size_from(data@, i + 2 + length) is None);
                return None;
            }
            i += 2 + length;
        } else {
            return None;
        }
    }
    None
}

/// The size of a JPEG, PNG or GIF image.
pub fn get_image_dimensions(data: &[u8]) -> (r: Option<(u32, u32)>)
    ensures
        r == image_size(data@),
{
    if data.len() < 24 {
        return None;
    }
    if data[0] == 0xFF && data[1] == 0xD8 {
        return get_jpeg_dimensions(data);
    }
    let png = data[0] == 0x89 && data[1] == 0x50 && data[2] == 0x4E && data[3] == 0x47 && data[4]
        == 0x0D && data[5] == 0x0A && data[6] == 0x1A && data[7] == 0x0A;
    let header = data[12] == 0x49 && data[13] == 0x48 && data[14] == 0x44 && data[15] == 0x52;
    let gif = data[0] == 0x47 && data[1] == 0x49 && data[2] == 0x46;
    proof {
        let d = data@;
        let sig = seq![0x89u8, 0x50, 0x4E, 0x47, 0x0D, 0x0A, 0x1A, 0x0A];
        assert(d.take(8) == sig ==> d.take(8)[0] == sig[0] && d.take(8)[1] == sig[1] && d.take(8)[2]
            == sig[2] && d.take(8)[3] == sig[3] && d.take(8)[4] == sig[4] && d.take(8)[5] == sig[5]
            && d.take(8)[6] == sig[6] && d.take(8)[7] == sig[7]);
        if png {
            assert(d.take(8) =~= sig);
        }
        let ihdr = seq![0x49u8, 0x48, 0x44, 0x52];
        let name = d.subrange(12, 16);
        assert(name == ihdr ==> name[0] == ihdr[0] && name[1] == ihdr[1] && name[2] == ihdr[2]
            && name[3] == ihdr[3]);
        if header {
            assert(name =~= ihdr);
        }
        let g = seq![0x47u8, 0x49, 0x46];
        assert(d.take(3) == g ==> d.take(3)[0] == g[0] && d.take(3)[1] == g[1] && d.take(3)[2]
            == g[2]);
        if gif {
            assert(d.take(3) =~= g);
        }
    }
    if png && header {
        let w: u32 = number_at(data, 16) * 0x1_0000 + number_at(data, 18);
        let h: u32 = number_at(data, 20) * 0x1_0000 + number_at(data, 22);
        return Some((w, h));
    }
    if gif {
        let w: u32 = data[6] as u32 + data[7] as u32 * 0x100;
        let h: u32 = data[8] as u32 + data[9] as u32 * 0x100;
        return Some((w, h));
    }
    None
}

/// The slot of an image that is missing or of unknown size.
pub open spec fn placeholder() -> Seq<u8> {
    seq![0xA0, 0xA0, 0xA0, 0xA0]
}

/// An image has its place in the container: it is there, and its size can be told.
pub open spec fn is_hd(image: Seq<u8>) -> bool {
    image.len() > 0 && image_size(image) is Some
}

/// The slot of an image in the container.
pub open spec fn image_slot(image: Seq<u8>) -> Seq<u8> {
    if is_hd(image) {
        utf8("CRES"@) + be32(0) + be32(12) + image
    } else {
        placeholder()
    }
}

/// The slots of images.
pub open spec fn image_slots(images: Seq<Seq<u8>>) -> Seq<Seq<u8>> {
    Seq::new(images.len(), |i: int| image_slot(images[i]))
}

/// How many images have their place in the container.
pub open spec fn hd_count(images: Seq<Seq<u8>>) -> int
    decreases images.len(),
{
    if images.len() == 0 {
        0
    } else {
        hd_count(images.drop_last()) + if is_hd(images.last()) {
            1int
        } else {
            0int
        }
    }
}

/// The larger of two numbers.
pub open spec fn larger(a: u32, b: u32) -> u32 {
    if b > a {
        b
    } else {
        a
    }
}

/// The largest width and the largest height of the images in the container.
pub open spec fn largest(images: Seq<Seq<u8>>) -> (u32, u32)
    decreases images.len(),
{
    if images.len() == 0 {
        (0, 0)
    } else {
        let rest = largest(images.drop_last());
        if is_hd(images.last()) {
            let size = image_size(images.last())->0;
            (larger(rest.0, size.0), larger(rest.1, size.1))
        } else {
            rest
        }
    }
}

/// The references of the images in the container, by their numbers from one, a bar
/// behind each.
pub open spec fn embed_list(images: Seq<Seq<u8>>) -> Seq<char>
    decreases images.len(),
{
    if images.len() == 0 {
        seq![]
    } else {
        let rest = embed_list(images.drop_last());
        if is_hd(images.last()) {
            rest + "kindle:embed:"@ + base32(images.len()) + "?mime=image/jpg"@ + "|"@
        } else {
            rest
        }
    }
}

/// The header record of a container.
#[verifier::opaque]
pub open spec fn container_header(
    title: Seq<char>,
    slots: int,
    hd_images: u32,
    max_width: u32,
    max_height: u32,
) -> Seq<u8> {
    let exth = exth_block(container_records(title, max_width, max_height));
    let name = utf8(title);
    let fill = if name.len() <= 256 {
        256 - name.len()
    } else {
        padding(name.len() as int)
    };
    let body = exth + name + zeros(fill as nat);
    utf8("CONT"@) + be32(low32(48int + body.len())) + be32(0x1_0000u32 | low32(slots + 3)) + be32(
        65001,
    ) + be32(0) + be32(1) + be32(low32(slots)) + be32(hd_images) + be32(low32(slots + 1)) + be32(1)
        + be32(low32(48int + exth.len())) + be32(low32(name.len() as int)) + body
}

/// Build the header record of a container.
pub fn build_cont_record(
    title: &str,
    num_cres_slots: usize,
    num_hd_images: u32,
    max_width: u32,
    max_height: u32,
) -> (record: Vec<u8>)
    ensures
        record@ == container_header(
            title@,
            num_cres_slots as int,
            num_hd_images,
            max_width,
            max_height,
        ),
{
    proof {
        reveal(container_header);
    }
    let exth = build_container_exth(title, max_width, max_height);
    let name = title.as_bytes();
    let fill: usize = if name.len() <= 256 {
        256 - name.len()
    } else {
        (4 - name.len() % 4) % 4
    };
    let mut body: Vec<u8> = Vec::new();
    push_all(&mut body, &exth);
    assert(body@ =~= exth@);
    push_all(&mut body, name);
    push_zeros(&mut body, fill);
    let mut record: Vec<u8> = Vec::new();
    push_all(&mut record, "CONT".as_bytes());
    push_be32(&mut record, length32_plus(body.len(), 48));
    push_be32(&mut record, 0x1_0000u32 | length32_plus(num_cres_slots, 3));
    push_be32(&mut record, 65001);
    push_be32(&mut record, 0);
    push_be32(&mut record, 1);
    push_be32(&mut record, length32(num_cres_slots));
    push_be32(&mut record, num_hd_images);
    push_be32(&mut record, length32_plus(num_cres_slots, 1));
    push_be32(&mut record, 1);
    push_be32(&mut record, length32_plus(exth.len(), 48));
    push_be32(&mut record, length32(name.len()));
    push_all(&mut record, &body);
    record
}

/// The container of high-resolution images that follows the book.
pub struct HdContainer {
    /// The header record.
    pub cont_record: Vec<u8>,
    /// One slot for each image: the image, or a placeholder.
    pub cres_records: Vec<Vec<u8>>,
    /// The references of the images in the container.
    pub kindle_embed_list: Vec<u8>,
    /// The largest width of the images.
    pub max_width: u32,
    /// The largest height of the images.
    pub max_height: u32,
    /// The number of slots.
    pub num_cres_slots: usize,
}

/// The records of a container for `images`, in order.
pub open spec fn container(title: Seq<char>, images: Seq<Seq<u8>>) -> Seq<Seq<u8>> {
    let size = largest(images);
    seq![utf8("BOUNDARY"@)]
        + seq![
        container_header(
            title,
            images.len() as int,
            low32(hd_count(images)),
            size.0,
            size.1,
        ),
    ]
        + image_slots(images)
        + seq![utf8(embed_list(images))]
        + seq![utf8("CONTBOUNDARY"@)]
        + seq![seq![0xE9u8, 0x8E, 0x0D, 0x0A]]
}

/// The geometry of a container: the largest size, and the range of its slots, the
/// list of references and the closing boundary.
pub open spec fn geometry(max_width: u32, max_height: u32, slots: nat) -> Seq<char> {
    size_text(max_width, max_height) + ":0-"@ + decimal(slots + 2) + "|"@
}

impl HdContainer {
    /// The container is the one for these images.
    pub open spec fn of(self, title: Seq<char>, images: Seq<Seq<u8>>) -> bool {
        &&& self.max_width == largest(images).0
        &&& self.max_height == largest(images).1
        &&& self.num_cres_slots == images.len()
        &&& self.cont_record@ == container_header(
            title,
            images.len() as int,
            low32(hd_count(images)),
            self.max_width,
            self.max_height,
        )
        &&& contents(self.cres_records@) == image_slots(images)
        &&& self.kindle_embed_list@ == utf8(embed_list(images))
    }

    /// The number of records that the container adds.
    pub fn total_record_count(&self) -> (n: usize)
        requires
            self.cres_records@.len() + 5 <= usize::MAX,
        ensures
            n == self.cres_records@.len() + 5,
    {
        1 + 1 + self.cres_records.len() + 1 + 1 + 1
    }

    /// The geometry of the container, "WxH:start-end|".
    pub fn geometry_string(&self) -> (r: String)
        ensures
            r@ == geometry(self.max_width, self.max_height, self.num_cres_slots as nat),
    {
        let mut r = String::new();
        push_decimal(&mut r, self.max_width as u128);
        r.append("x");
        push_decimal(&mut r, self.max_height as u128);
        r.append(":0-");
        push_decimal(&mut r, self.num_cres_slots as u128 + 2);
        r.append("|");
        assert(r@ =~= geometry(self.max_width, self.max_height, self.num_cres_slots as nat));
        r
    }

    /// The records of the container, in order.
    pub fn into_records(self) -> (r: Vec<Vec<u8>>)
        ensures
            contents(r@) == seq![utf8("BOUNDARY"@)] + seq![self.cont_record@] + contents(
                self.cres_records@,
            ) + seq![self.kindle_embed_list@] + seq![utf8("CONTBOUNDARY"@)] + seq![
                seq![0xE9u8, 0x8E, 0x0D, 0x0A],
            ],
            r@.len() == self.cres_records@.len() + 5,
    {
        let ghost slots = contents(self.cres_records@);
        let mut r: Vec<Vec<u8>> = Vec::new();
        r.push(bytes_of("BOUNDARY"));
        r.push(self.cont_record);
        let mut cres = self.cres_records;
        r.append(&mut cres);
        r.push(self.kindle_embed_list);
        r.push(bytes_of("CONTBOUNDARY"));
        let end: Vec<u8> = vec![0xE9, 0x8E, 0x0D, 0x0A];
        assert(end@ =~= seq![0xE9u8, 0x8E, 0x0D, 0x0A]);
        r.push(end);
        assert(contents(r@) =~= seq![utf8("BOUNDARY"@)] + seq![self.cont_record@] + slots + seq![
            self.kindle_embed_list@,
        ] + seq![utf8("CONTBOUNDARY"@)] + seq![seq![0xE9u8, 0x8E, 0x0D, 0x0A]]);
        r
    }
}

/// Build the container of high-resolution images of a book.
///
/// Every image has a slot: the image itself where its size can be told, else a
/// placeholder.
pub fn build_hd_container(title: &str, image_records: &[Vec<u8>]) -> (r: HdContainer)
    ensures
        r.of(
            if title@.len() == 0 {
                "Book"@
            } else {
                title@
            },
            contents(image_records@),
        ),
{
    let ghost images = contents(image_records@);
    let mut cres_records: Vec<Vec<u8>> = Vec::new();
    let mut hd_images: u32 = 0;
    let mut max_width: u32 = 0;
    let mut max_height: u32 = 0;
    let mut list = String::new();
    let mut i: usize = 0;
    proof {
        crate::bytes::low32_of_small(0);
        assert(images.take(0) =~= seq![]);
    }
    while i < image_records.len()
        invariant
            images == contents(image_records@),
            i <= image_records@.len(),
            cres_records@.len() == i,
            forall|k: int| 0 <= k < i ==> #[trigger] cres_records@[k]@ == image_slot(images[k]),
            hd_images == low32(hd_count(images.take(i as int))),
            hd_count(images.take(i as int)) >= 0,
            max_width == largest(images.take(i as int)).0,
            max_height == largest(images.take(i as int)).1,
            list@ == embed_list(images.take(i as int)),
        decreases image_records.len() - i,
    {
        let image = &image_records[i];
        proof {
            let next = images.take(i + 1);
            assert(next.drop_last() =~= images.take(i as int));
            assert(next.last() == image@);
            crate::bytes::low32_of_sum(hd_count(images.take(i as int)), 1);
        }
        let size = if image.len() == 0 {
            None
        } else {
            get_image_dimensions(image)
        };
        match size {
            Some((w, h)) => {
                let mut cres: Vec<u8> = Vec::new();
                push_all(&mut cres, "CRES".as_bytes());
                push_be32(&mut cres, 0);
                push_be32(&mut cres, 12);
                push_all(&mut cres, image);
                assert(cres@ =~= image_slot(images[i as int]));
                cres_records.push(cres);
                hd_images = hd_images.wrapping_add(1);
                if w > max_width {
                    max_width = w;
                }
                if h > max_height {
                    max_height = h;
                }
                let code = encode_base32(i + 1);
                list.append("kindle:embed:");
                list.append(code.as_str());
                list.append("?mime=image/jpg");
                list.append("|");
            },
            None => {
                let empty: Vec<u8> = vec![0xA0, 0xA0, 0xA0, 0xA0];
                assert(empty@ =~= placeholder());
                cres_records.push(empty);
            },
        }
        i += 1;
    }
    assert(images.take(i as int) =~= images);
    assert(contents(cres_records@) =~= image_slots(images));
    let name = if title.is_empty() {
        "Book"
    } else {
        title
    };
    let cont_record = build_cont_record(
        name,
        image_records.len(),
        hd_images,
        max_width,
        max_height,
    );
    HdContainer {
        cont_record,
        cres_records,
        kindle_embed_list: bytes_of(list.as_str()),
        max_width,
        max_height,
        num_cres_slots: image_records.len(),
    }
}

/// A JFIF image has a density unit behind the patch, and one that had it keeps it; any other image stays
/// as it is.
pub proof fn jfif_images_have_a_unit(data: Seq<u8>)
    requires
        data.len() > 13,
    ensures
        data.take(4) == seq![0xFFu8, 0xD8, 0xFF, 0xE0] && data.subrange(6, 11) == seq![
            0x4Au8,
            0x46,
            0x49,
            0x46,
            0x00,
        ] ==> with_density(data)[13] == if data[13] == 0 {
            1u8
        } else {
            data[13]
        },
        data.take(4) != seq![0xFFu8, 0xD8, 0xFF, 0xE0] || data.subrange(6, 11) != seq![
            0x4Au8,
            0x46,
            0x49,
            0x46,
            0x00,
        ] ==> with_density(data) == data,
{
    let head = seq![0xFFu8, 0xD8, 0xFF, 0xE0];
    let name = seq![0x4Au8, 0x46, 0x49, 0x46, 0x00];
    if data.take(4) == head {
        assert(data.take(4)[0] == head[0] && data.take(4)[1] == head[1] && data.take(4)[2] == head[2]
            && data.take(4)[3] == head[3]);
    }
    if data.subrange(6, 11) == name {
        let n = data.subrange(6, 11);
        assert(n[0] == name[0] && n[1] == name[1] && n[2] == name[2] && n[3] == name[3] && n[4]
            == name[4]);
    }
    if lacks_density(data) {
        assert(data.take(4) =~= head);
        assert(data.subrange(6, 11) =~= name);
    }
}

/// The size of a PNG image is that of its header, first the width and then the height; that of a JPEG
/// image, where a frame header stands directly behind its first marker or behind one segment, is that
/// of the frame header, first the height and then the width.
pub proof fn image_sizes_are_those_of_headers(data: Seq<u8>)
    requires
        data.len() >= 24,
    ensures
        data.take(8) == seq![0x89u8, 0x50, 0x4E, 0x47, 0x0D, 0x0A, 0x1A, 0x0A] && data.subrange(
            12,
            16,
        ) == seq![0x49u8, 0x48, 0x44, 0x52] ==> image_size(data) == Some(
            (read_be32(data, 16) as u32, read_be32(data, 20) as u32),
        ),
        data[0] == 0xFF && data[1] == 0xD8 && data[2] == 0xFF && 0xC0 <= data[3] <= 0xC3
            ==> image_size(data) == Some((read_be16(data, 9) as u32, read_be16(data, 7) as u32)),
        ({
            let next = 4 + read_be16(data, 4);
            data[0] == 0xFF && data[1] == 0xD8 && data[2] == 0xFF && 0xE0 <= data[3] <= 0xEF && next
                + 9 <= data.len() && data[next] == 0xFF && 0xC0 <= data[next + 1] <= 0xC3
                ==> image_size(data) == Some(
                (read_be16(data, next + 7) as u32, read_be16(data, next + 5) as u32),
            )
        }),
{
    let next = 4 + read_be16(data, 4);
    if data.take(8) == seq![0x89u8, 0x50, 0x4E, 0x47, 0x0D, 0x0A, 0x1A, 0x0A] {
        assert(data.take(8)[0] == 0x89u8);
    }
    reveal_with_fuel(jpeg_size_from, 4);
}

/// The container of high-resolution images has a slot for each image, in their order, which holds the
/// image behind twelve bytes where its size can be told, and between its boundaries nothing but its
/// header, the slots and the list of references.
pub proof fn container_holds_all_images(title: Seq<char>, images: Seq<Seq<u8>>, i: int)
    requires
        0 <= i < images.len(),
    ensures
        ({
            let c = container(title, images);
            &&& c.len() == images.len() + 5
            &&& c[0] == utf8("BOUNDARY"@)
            &&& c[images.len() as int + 3] == utf8("CONTBOUNDARY"@)
            &&& images[i].len() > 0 && image_size(images[i]) is Some ==> c[2 + i].skip(12)
                == images[i] && c[2 + i].take(4) == utf8("CRES"@)
            &&& images[i].len() == 0 || image_size(images[i]) is None ==> c[2 + i] == seq![
                0xA0u8,
                0xA0,
                0xA0,
                0xA0,
            ]
        }),
{
    broadcast use crate::bytes::group_lengths;

    reveal_strlit("CRES");
    vstd::utf8::is_ascii_chars_encode_utf8("CRES"@);
    let c = container(title, images);
    assert(c[2 + i] == image_slots(images)[i]);
    if is_hd(images[i]) {
        assert(c[2 + i].skip(12) =~= images[i]);
        assert(c[2 + i].take(4) =~= utf8("CRES"@));
    }
}

/// No image of a container is larger than the size that it tells, in either direction, and each of the
/// two is that of some image where there is one.
pub proof fn container_tells_the_largest_size(images: Seq<Seq<u8>>)
    ensures
        forall|i: int|
            0 <= i < images.len() && is_hd(#[trigger] images[i]) ==> (image_size(images[i])->0).0
                <= largest(images).0 && (image_size(images[i])->0).1 <= largest(images).1,
        largest(images).0 > 0 ==> exists|i: int|
            0 <= i < images.len() && is_hd(#[trigger] images[i]) && (image_size(images[i])->0).0
                == largest(images).0,
        largest(images).1 > 0 ==> exists|i: int|
            0 <= i < images.len() && is_hd(#[trigger] images[i]) && (image_size(images[i])->0).1
                == largest(images).1,
    decreases images.len(),
{
    if images.len() > 0 {
        let rest = images.drop_last();
        container_tells_the_largest_size(rest);
        let last = images.len() - 1;
        assert forall|i: int| 0 <= i < images.len() && is_hd(
            #[trigger] images[i],
        ) implies (image_size(images[i])->0).0 <= largest(images).0 && (image_size(images[i])->0).1
            <= largest(images).1 by {
            if i < last {
                assert(rest[i] == images[i]);
            }
        }
        assert(images[last] == images.last());
        if largest(rest).0 > 0 {
            let i = choose|i: int|
                0 <= i < rest.len() && is_hd(#[trigger] rest[i]) && (image_size(rest[i])->0).0
                    == largest(rest).0;
            assert(images[i] == rest[i]);
        }
        if largest(rest).1 > 0 {
            let i = choose|i: int|
                0 <= i < rest.len() && is_hd(#[trigger] rest[i]) && (image_size(rest[i])->0).1
                    == largest(rest).1;
            assert(images[i] == rest[i]);
        }
    }
}

/// The geometry of a container tells its largest size and its range: from the header, which is number 0,
/// to the record before the one that ends it.
pub proof fn geometries_tell_size_and_range(title: Seq<char>, images: Seq<Seq<u8>>)
    ensures
        ({
            let (w, h) = largest(images);
            let last = container(title, images).len() - 3;
            exists|a: Seq<char>, b: Seq<char>, c: Seq<char>|
                {
                    &&& geometry(w, h, images.len()) == #[trigger] (a + "x"@ + b + ":0-"@ + c + "|"@)
                    &&& decimal_value(a) == w
                    &&& decimal_value(b) == h
                    &&& decimal_value(c) == last
                }
        }),
{
    let (w, h) = largest(images);
    let a = decimal(w as nat);
    let b = decimal(h as nat);
    let c = decimal(images.len() + 2);
    decimals_read_back(w as nat, 0);
    decimals_read_back(h as nat, 0);
    decimals_read_back(images.len() + 2, 0);
    assert(geometry(w, h, images.len()) =~= a + "x"@ + b + ":0-"@ + c + "|"@);
}

/// The number of images in a container is that of those which are there and whose size can be told.
pub proof fn containers_count_their_images(images: Seq<Seq<u8>>)
    ensures
        hd_count(images) == images.filter(
            |image: Seq<u8>| image.len() > 0 && image_size(image) is Some,
        ).len(),
    decreases images.len(),
{
    reveal(Seq::filter);
    if images.len() > 0 {
        containers_count_their_images(images.drop_last());
    }
}

/// The container lists each of its images by its number from one on, in four digits of base 32, and no
/// others: the list of more images is that of the first ones and what the last one adds.
pub proof fn containers_list_their_images(images: Seq<Seq<u8>>, image: Seq<u8>) -> (digits: Seq<char>)
    requires
        images.len() + 1 < 0x10_0000,
    ensures
        digits.len() == 4,
        base32_value(digits) == images.len() + 1,
        embed_list(images.push(image)) == embed_list(images) + if image.len() > 0 && image_size(image)
            is Some {
            "kindle:embed:"@ + digits + "?mime=image/jpg|"@
        } else {
            seq![]
        },
        embed_list(seq![]) == Seq::<char>::empty(),
{
    let digits = base32(images.len() + 1);
    image_numbers_read_back(images.len() + 1);
    assert(images.push(image).drop_last() =~= images);
    reveal_strlit("?mime=image/jpg");
    reveal_strlit("?mime=image/jpg|");
    reveal_strlit("|");
    assert("?mime=image/jpg|"@ =~= "?mime=image/jpg"@ + "|"@);
    assert(embed_list(images.push(image)) =~= embed_list(images) + if is_hd(image) {
        "kindle:embed:"@ + digits + "?mime=image/jpg|"@
    } else {
        seq![]
    });
    digits
}

/// A reader of the header of a container finds its length, how many slots it has and how many of them
/// hold an image, where the list of references stands, and the title behind the metadata.
pub proof fn container_headers_read_back(
    title: Seq<char>,
    slots: int,
    hd_images: u32,
    max_width: u32,
    max_height: u32,
)
    requires
        0 <= slots < u32::MAX,
        container_header(title, slots, hd_images, max_width, max_height).len() <= u32::MAX,
    ensures
        ({
            let record = container_header(title, slots, hd_images, max_width, max_height);
            let at = read_be32(record, 40);
            &&& record.subrange(0, 4) == utf8("CONT"@)
            &&& read_be32(record, 4) == record.len()
            &&& read_be32(record, 24) == slots
            &&& read_be32(record, 28) == hd_images
            &&& read_be32(record, 32) == slots + 1
            &&& 48 <= at
            &&& record.subrange(48, at) == exth_block(
                container_records(title, max_width, max_height),
            )
            &&& read_be32(record, 44) == utf8(title).len()
            &&& at + utf8(title).len() <= record.len()
            &&& record.subrange(at, at + utf8(title).len()) == utf8(title)
            &&& utf8(title).len() <= 256 ==> record.len() == at + 256
        }),
{
    broadcast use crate::bytes::group_lengths;

    reveal(container_header);
    reveal_strlit("CONT");
    vstd::utf8::is_ascii_chars_encode_utf8("CONT"@);
    let record = container_header(title, slots, hd_images, max_width, max_height);
    let exth = exth_block(container_records(title, max_width, max_height));
    let name = utf8(title);
    let fill = if name.len() <= 256 {
        256 - name.len()
    } else {
        padding(name.len() as int)
    };
    let body = exth + name + zeros(fill as nat);
    let at = 48 + exth.len() as int;
    assert(record.len() == 48 + body.len());
    low32_of_small(record.len() as int);
    low32_of_small(slots);
    low32_of_small(slots + 1);
    low32_of_small(at);
    low32_of_small(name.len() as int);
    assert(record.subrange(0, 4) =~= utf8("CONT"@));
    assert(record.subrange(4, 8) =~= be32(low32(48int + body.len())));
    be32_reads_back(low32(48int + body.len()), record, 4);
    assert(record.subrange(24, 28) =~= be32(low32(slots)));
    be32_reads_back(low32(slots), record, 24);
    assert(record.subrange(28, 32) =~= be32(hd_images));
    be32_reads_back(hd_images, record, 28);
    assert(record.subrange(32, 36) =~= be32(low32(slots + 1)));
    be32_reads_back(low32(slots + 1), record, 32);
    assert(record.subrange(40, 44) =~= be32(low32(at)));
    be32_reads_back(low32(at), record, 40);
    assert(record.subrange(44, 48) =~= be32(low32(name.len() as int)));
    be32_reads_back(low32(name.len() as int), record, 44);
    assert(record.subrange(48, at) =~= exth);
    assert(record.subrange(at, at + name.len()) =~= name);
}

} // verus!
