//! A laid-out tree as a one-page PDF document.
//!
//! The document is assembled in memory; writing it out is the caller's
//! business. Positions and sizes on the page are in pixels, which a
//! transformation at the start of the page maps to points: a pixel is
//! three quarters of a point.

use crate::layout::{LayoutBox, LayoutBoxView, Rect};
use crate::painting::{build_display_list, display_list, DisplayCommand};
use vstd::prelude::*;
use vstd::utf8::*;

verus! {

/// The bytes of a text.
pub open spec fn bytes_of(s: Seq<char>) -> Seq<u8> {
    encode_utf8(s)
}

/// The decimal digits of a number, as characters.
pub open spec fn digits(n: nat) -> Seq<u8>
    decreases n,
{
    if n < 10 {
        seq![(48 + n) as u8]
    } else {
        digits(n / 10).push((48 + n % 10) as u8)
    }
}

/// The decimal digits of a number, with zeros in front of them where
/// there are fewer than `width`.
pub open spec fn padded(n: nat, width: nat) -> Seq<u8> {
    let d = digits(n);
    if d.len() >= width {
        d
    } else {
        Seq::new((width - d.len()) as nat, |i: int| 48u8) + d
    }
}

/// Ten to the power of `k`.
pub open spec fn power_of_ten(k: nat) -> nat
    decreases k,
{
    if k == 0 {
        1
    } else {
        10 * power_of_ten((k - 1) as nat)
    }
}

/// A number of units of which ten to the power of `places` make one, as
/// a decimal with `places` digits behind the point.
#[verifier::opaque]
pub open spec fn fixed(v: int, places: nat) -> Seq<u8> {
    let a = (if v < 0 {
        -v
    } else {
        v
    }) as nat;
    let scale = power_of_ten(places);
    (if v < 0 {
        seq![45u8]
    } else {
        Seq::empty()
    }) + digits(a / scale) + seq![46u8] + padded(a % scale, places)
}

/// One command in the page's stream: the colour, then the rectangle to
/// fill with it, in pixels.
pub open spec fn item_bytes(item: DisplayCommand) -> Seq<u8> {
    match item {
        DisplayCommand::SolidColor(color, rect) => digits(color.r as nat) + bytes_of(" "@) + digits(
            color.g as nat,
        ) + bytes_of(" "@) + digits(color.b as nat) + bytes_of(" sc "@) + fixed(rect.x as int, 3)
            + bytes_of(" "@) + fixed(rect.y as int, 3) + bytes_of(" "@) + fixed(
            rect.width as int,
            3,
        ) + bytes_of(" "@) + fixed(rect.height as int, 3) + bytes_of(" re f\n"@),
    }
}

/// The commands of a display list, one after the other.
pub open spec fn items_bytes(list: Seq<DisplayCommand>) -> Seq<u8>
    decreases list.len(),
{
    if list.len() == 0 {
        Seq::empty()
    } else {
        items_bytes(list.drop_last()) + item_bytes(list.last())
    }
}

/// The page's stream: the colour space, the transformation from pixels,
/// with the origin at the top left, to points, and the commands. `height`
/// is the height of the page in hundred-thousandths of a point.
pub open spec fn stream_bytes(list: Seq<DisplayCommand>, height: int) -> Seq<u8> {
    bytes_of("/DeviceRGB cs /DeviceRGB CS\n0.75 0 0 -0.75 0 "@) + fixed(height, 5) + bytes_of(
        " cm\n"@,
    ) + items_bytes(list)
}

/// An object of the document: its number, and its content between the
/// words that open and close it.
pub open spec fn object(id: nat, content: Seq<u8>) -> Seq<u8> {
    digits(id) + bytes_of(" 0 obj\n"@) + content + bytes_of("endobj\n"@)
}

/// What a document starts with: the version, and a comment of bytes
/// that mark the file as binary.
pub open spec fn header() -> Seq<u8> {
    seq![
        0x25u8, 0x50u8, 0x44u8, 0x46u8, 0x2du8, 0x31u8, 0x2eu8, 0x37u8, 0x0au8, 0x25u8, 0xb5u8,
        0xedu8, 0xaeu8, 0xfbu8, 0x0au8,
    ]
}

/// The object that holds the page's stream. Its length stands in the
/// object that follows it.
pub open spec fn contents_object(stream: Seq<u8>) -> Seq<u8> {
    object(
        3,
        bytes_of("<<  /Length 4 0 R\n>>\nstream\n"@) + stream + bytes_of("endstream\n"@),
    )
}

/// The object that holds the length of the page's stream.
pub open spec fn length_object(length: nat) -> Seq<u8> {
    object(4, digits(length) + bytes_of("\n"@))
}

/// The page, `width` by `height` hundred-thousandths of a point.
pub open spec fn page_object(width: int, height: int) -> Seq<u8> {
    object(
        5,
        bytes_of(
            "<<  /Type /Page\n    /Parent 2 0 R\n    /Resources << >>\n    /MediaBox [ 0 0 "@,
        ) + fixed(width, 5) + bytes_of(" "@) + fixed(height, 5) + bytes_of(
            " ]\n    /Contents 3 0 R\n>>\n"@,
        ),
    )
}

/// The page tree, of one page.
pub open spec fn pages_object() -> Seq<u8> {
    object(2, bytes_of("<<  /Type /Pages\n    /Count 1\n    /Kids [ 5 0 R ]\n>>\n"@))
}

/// The catalog, the root of the document.
pub open spec fn root_object() -> Seq<u8> {
    object(1, bytes_of("<<  /Type /Catalog\n    /Pages 2 0 R\n>>\n"@))
}

/// One line of the table of objects: where the object starts.
pub open spec fn xref_entry(offset: nat) -> Seq<u8> {
    padded(offset, 10) + bytes_of(" 00000 n \n"@)
}

/// The document for a display list on a page as large as `bounds`: the
/// header; the objects, which are the stream, its length, the page, the
/// page tree and the catalog; the table that says where each object
/// starts; and the trailer, which says where the table starts.
pub open spec fn document(list: Seq<DisplayCommand>, bounds: Rect) -> Seq<u8> {
    let width = bounds.width * 75;
    let height = bounds.height * 75;
    let stream = stream_bytes(list, height);
    let contents = contents_object(stream);
    let length = length_object(stream.len());
    let page = page_object(width, height);
    let at_contents = header().len();
    let at_length = at_contents + contents.len();
    let at_page = at_length + length.len();
    let at_pages = at_page + page.len();
    let at_root = at_pages + pages_object().len();
    let body = header() + contents + length + page + pages_object() + root_object();
    body + table(at_root, at_pages, at_contents, at_length, at_page, body.len())
}

/// The table that says where the five objects start, in the order of
/// their numbers, and the trailer, which names the catalog and says where
/// the table starts.
pub open spec fn table(
    at_root: nat,
    at_pages: nat,
    at_contents: nat,
    at_length: nat,
    at_page: nat,
    at_table: nat,
) -> Seq<u8> {
    bytes_of("xref\n0 6\n0000000000 65535 f \n"@) + xref_entry(at_root) + xref_entry(at_pages)
        + xref_entry(at_contents) + xref_entry(at_length) + xref_entry(at_page) + bytes_of(
        "trailer\n<<  /Size 6\n    /Root 1 0 R\n>>\nstartxref\n"@,
    ) + digits(at_table) + bytes_of("\n%%EOF\n"@)
}

/// The largest extent of a page: its number of hundred-thousandths of a
/// point must fit the number type.
pub const MAX_EXTENT: i128 = 2268549112806256423089164049545121409;

/// Appends the bytes of a text.
fn push_text(buf: &mut Vec<u8>, s: &str)
    ensures
        final(buf)@ == old(buf)@ + bytes_of(s@),
{
    let bytes = s.as_bytes();
    let mut i: usize = 0;
    assert(bytes@.take(0) =~= Seq::empty());
    assert(buf@ + Seq::<u8>::empty() =~= buf@);
    while i < bytes.len()
        invariant
            i <= bytes.len(),
            bytes@ == bytes_of(s@),
            buf@ == old(buf)@ + bytes@.take(i as int),
        decreases bytes.len() - i,
    {
        assert(old(buf)@ + bytes@.take(i + 1) =~= (old(buf)@ + bytes@.take(i as int)).push(
            bytes@[i as int],
        ));
        buf.push(bytes[i]);
        i += 1;
    }
    assert(bytes@.take(bytes.len() as int) =~= bytes@);
}

/// Appends the decimal digits of a number.
fn push_number(buf: &mut Vec<u8>, n: u128)
    ensures
        final(buf)@ == old(buf)@ + digits(n as nat),
    decreases n,
{
    if n >= 10 {
        push_number(buf, n / 10);
    }
    buf.push(48 + (n % 10) as u8);
    assert(buf@ =~= old(buf)@ + digits(n as nat));
}

/// The number of decimal digits of a number.
fn count_digits(n: u128) -> (k: usize)
    ensures
        k == digits(n as nat).len(),
        1 <= k <= 39,
    decreases n,
{
    if n >= 10 {
        proof {
            lemma_digits_len((n / 10) as nat);
            lemma_digits_len(n as nat);
        }
        1 + count_digits(n / 10)
    } else {
        1
    }
}

/// A number below ten to the power of `k` has at most `k` digits.
proof fn lemma_digits_len(n: nat)
    ensures
        1 <= digits(n).len(),
        n < 0x1_0000_0000_0000_0000_0000_0000_0000_0000 ==> digits(n).len() <= 39,
    decreases n,
{
    lemma_digits_bound(n, 39);
    assert(power_of_ten(39) > 0xffff_ffff_ffff_ffff_ffff_ffff_ffff_ffff) by {
        reveal_with_fuel(power_of_ten, 40);
    }
}

proof fn lemma_digits_bound(n: nat, k: nat)
    requires
        k >= 1,
    ensures
        1 <= digits(n).len(),
        n < power_of_ten(k) ==> digits(n).len() <= k,
    decreases n,
{
    if n >= 10 {
        if k >= 2 {
            lemma_digits_bound(n / 10, (k - 1) as nat);
        } else {
            lemma_digits_bound(n / 10, 1);
            assert(power_of_ten(1) == 10) by {
                reveal_with_fuel(power_of_ten, 2);
            }
        }
    }
}

/// Appends the decimal digits of a number, with zeros in front of them
/// where there are fewer than `width`.
fn push_padded(buf: &mut Vec<u8>, n: u128, width: usize)
    ensures
        final(buf)@ == old(buf)@ + padded(n as nat, width as nat),
{
    let k = count_digits(n);
    let ghost start = buf@;
    let mut i: usize = k;
    assert(start + Seq::new(0nat, |j: int| 48u8) =~= start);
    while i < width
        invariant
            k <= i,
            i <= width || i == k,
            buf@ == start + Seq::new((i - k) as nat, |j: int| 48u8),
        decreases width - i,
    {
        assert(start + Seq::new((i + 1 - k) as nat, |j: int| 48u8) =~= (start + Seq::new(
            (i - k) as nat,
            |j: int| 48u8,
        )).push(48u8));
        buf.push(48);
        i += 1;
    }
    let ghost zeros = Seq::new((i - k) as nat, |j: int| 48u8);
    push_number(buf, n);
    proof {
        if k >= width {
            assert(zeros =~= Seq::empty());
            assert(start + zeros + digits(n as nat) =~= start + digits(n as nat));
        } else {
            assert(start + zeros + digits(n as nat) =~= start + (zeros + digits(n as nat)));
        }
    }
}

/// Appends a number of thousandths (`places` 3) or of hundred-thousandths
/// (`places` 5) as a decimal.
fn push_fixed(buf: &mut Vec<u8>, v: i128, places: usize)
    requires
        places == 3 || places == 5,
    ensures
        final(buf)@ == old(buf)@ + fixed(v as int, places as nat),
{
    let scale: u128 = if places == 3 {
        1000
    } else {
        100_000
    };
    proof {
        reveal(fixed);
        reveal_with_fuel(power_of_ten, 6);
        assert(scale == power_of_ten(places as nat));
    }
    let ghost start = buf@;
    let a: u128 = if v < 0 {
        buf.push(45);
        (-(v + 1)) as u128 + 1
    } else {
        v as u128
    };
    let ghost sign = if v < 0 {
        seq![45u8]
    } else {
        Seq::<u8>::empty()
    };
    assert(buf@ =~= start + sign);
    push_number(buf, a / scale);
    buf.push(46);
    push_padded(buf, a % scale, places);
    assert(buf@ =~= start + (sign + digits((a / scale) as nat) + seq![46u8] + padded(
        (a % scale) as nat,
        places as nat,
    )));
}

/// Appends one command of the page's stream.
fn render_item(item: &DisplayCommand, output: &mut Vec<u8>)
    ensures
        final(output)@ == old(output)@ + item_bytes(*item),
{
    let ghost start = output@;
    match *item {
        DisplayCommand::SolidColor(color, rect) => {
            push_number(output, color.r as u128);
            push_text(output, " ");
            push_number(output, color.g as u128);
            push_text(output, " ");
            push_number(output, color.b as u128);
            push_text(output, " sc ");
            push_fixed(output, rect.x, 3);
            push_text(output, " ");
            push_fixed(output, rect.y, 3);
            push_text(output, " ");
            push_fixed(output, rect.width, 3);
            push_text(output, " ");
            push_fixed(output, rect.height, 3);
            push_text(output, " re f\n");
            assert(output@ =~= start + item_bytes(*item));
        },
    }
}

/// Appends bytes.
fn push_bytes(buf: &mut Vec<u8>, bytes: &Vec<u8>)
    ensures
        final(buf)@ == old(buf)@ + bytes@,
{
    let mut i: usize = 0;
    assert(old(buf)@ + bytes@.take(0) =~= old(buf)@);
    while i < bytes.len()
        invariant
            i <= bytes.len(),
            buf@ == old(buf)@ + bytes@.take(i as int),
        decreases bytes.len() - i,
    {
        assert(old(buf)@ + bytes@.take(i + 1) =~= (old(buf)@ + bytes@.take(i as int)).push(
            bytes@[i as int],
        ));
        buf.push(bytes[i]);
        i += 1;
    }
    assert(bytes@.take(bytes.len() as int) =~= bytes@);
}

/// Appends an object.
fn write_object(output: &mut Vec<u8>, id: usize, content: &Vec<u8>)
    ensures
        final(output)@ == old(output)@ + object(id as nat, content@),
{
    let ghost start = output@;
    push_number(output, id as u128);
    push_text(output, " 0 obj\n");
    push_bytes(output, content);
    push_text(output, "endobj\n");
    assert(output@ =~= start + object(id as nat, content@));
}

/// The page's stream for a display list, the page being `height`
/// hundred-thousandths of a point high.
fn render_stream(list: &Vec<DisplayCommand>, height: i128) -> (stream: Vec<u8>)
    ensures
        stream@ == stream_bytes(list@, height as int),
{
    let mut stream: Vec<u8> = Vec::new();
    push_text(&mut stream, "/DeviceRGB cs /DeviceRGB CS\n0.75 0 0 -0.75 0 ");
    push_fixed(&mut stream, height, 5);
    push_text(&mut stream, " cm\n");
    let ghost head = stream@;
    let mut i: usize = 0;
    assert(list@.take(0) =~= Seq::empty());
    assert(head + items_bytes(list@.take(0)) =~= head);
    while i < list.len()
        invariant
            i <= list.len(),
            stream@ == head + items_bytes(list@.take(i as int)),
        decreases list.len() - i,
    {
        proof {
            assert(list@.take(i + 1).drop_last() =~= list@.take(i as int));
            assert(list@.take(i + 1).last() == list@[i as int]);
            assert(head + (items_bytes(list@.take(i as int)) + item_bytes(list@[i as int])) =~= head
                + items_bytes(list@.take(i as int)) + item_bytes(list@[i as int]));
        }
        render_item(&list[i], &mut stream);
        i += 1;
    }
    assert(list@.take(list.len() as int) =~= list@);
    assert(stream@ =~= stream_bytes(list@, height as int));
    stream
}

/// Appends what a document starts with.
fn write_header(file: &mut Vec<u8>)
    ensures
        final(file)@ == old(file)@ + header(),
{
    file.push(0x25);
    file.push(0x50);
    file.push(0x44);
    file.push(0x46);
    file.push(0x2d);
    file.push(0x31);
    file.push(0x2e);
    file.push(0x37);
    file.push(0x0a);
    file.push(0x25);
    file.push(0xb5);
    file.push(0xed);
    file.push(0xae);
    file.push(0xfb);
    file.push(0x0a);
    assert(file@ =~= old(file)@ + header());
}

/// Appends the object that holds the page's stream.
fn write_contents(file: &mut Vec<u8>, stream: &Vec<u8>)
    ensures
        final(file)@ == old(file)@ + contents_object(stream@),
{
    let mut contents: Vec<u8> = Vec::new();
    push_text(&mut contents, "<<  /Length 4 0 R\n>>\nstream\n");
    push_bytes(&mut contents, stream);
    push_text(&mut contents, "endstream\n");
    assert(contents@ =~= bytes_of("<<  /Length 4 0 R\n>>\nstream\n"@) + stream@ + bytes_of(
        "endstream\n"@,
    ));
    write_object(file, 3, &contents);
}

/// Appends the object that holds the length of the page's stream.
fn write_length(file: &mut Vec<u8>, length: usize)
    ensures
        final(file)@ == old(file)@ + length_object(length as nat),
{
    let mut content: Vec<u8> = Vec::new();
    push_number(&mut content, length as u128);
    push_text(&mut content, "\n");
    assert(content@ =~= digits(length as nat) + bytes_of("\n"@));
    write_object(file, 4, &content);
}

/// Appends the page.
fn write_page(file: &mut Vec<u8>, width: i128, height: i128)
    ensures
        final(file)@ == old(file)@ + page_object(width as int, height as int),
{
    let mut page: Vec<u8> = Vec::new();
    push_text(
        &mut page,
        "<<  /Type /Page\n    /Parent 2 0 R\n    /Resources << >>\n    /MediaBox [ 0 0 ",
    );
    push_fixed(&mut page, width, 5);
    push_text(&mut page, " ");
    push_fixed(&mut page, height, 5);
    push_text(&mut page, " ]\n    /Contents 3 0 R\n>>\n");
    assert(page@ =~= bytes_of(
        "<<  /Type /Page\n    /Parent 2 0 R\n    /Resources << >>\n    /MediaBox [ 0 0 "@,
    ) + fixed(width as int, 5) + bytes_of(" "@) + fixed(height as int, 5) + bytes_of(
        " ]\n    /Contents 3 0 R\n>>\n"@,
    ));
    write_object(file, 5, &page);
}

/// Appends the page tree.
fn write_pages(file: &mut Vec<u8>)
    ensures
        final(file)@ == old(file)@ + pages_object(),
{
    let mut pages: Vec<u8> = Vec::new();
    push_text(&mut pages, "<<  /Type /Pages\n    /Count 1\n    /Kids [ 5 0 R ]\n>>\n");
    assert(pages@ =~= bytes_of("<<  /Type /Pages\n    /Count 1\n    /Kids [ 5 0 R ]\n>>\n"@));
    write_object(file, 2, &pages);
}

/// Appends the catalog.
fn write_root(file: &mut Vec<u8>)
    ensures
        final(file)@ == old(file)@ + root_object(),
{
    let mut root: Vec<u8> = Vec::new();
    push_text(&mut root, "<<  /Type /Catalog\n    /Pages 2 0 R\n>>\n");
    assert(root@ =~= bytes_of("<<  /Type /Catalog\n    /Pages 2 0 R\n>>\n"@));
    write_object(file, 1, &root);
}

/// Appends one line of the table of objects.
fn write_entry(file: &mut Vec<u8>, offset: usize)
    ensures
        final(file)@ == old(file)@ + xref_entry(offset as nat),
{
    let ghost start = file@;
    push_padded(file, offset as u128, 10);
    push_text(file, " 00000 n \n");
    assert(file@ =~= start + xref_entry(offset as nat));
}

/// Appends the table of objects and the trailer.
fn write_table(
    file: &mut Vec<u8>,
    at_root: usize,
    at_pages: usize,
    at_contents: usize,
    at_length: usize,
    at_page: usize,
    at_table: usize,
)
    ensures
        final(file)@ == old(file)@ + table(
            at_root as nat,
            at_pages as nat,
            at_contents as nat,
            at_length as nat,
            at_page as nat,
            at_table as nat,
        ),
{
    let ghost start = file@;
    push_text(file, "xref\n0 6\n0000000000 65535 f \n");
    write_entry(file, at_root);
    write_entry(file, at_pages);
    write_entry(file, at_contents);
    write_entry(file, at_length);
    write_entry(file, at_page);
    push_text(file, "trailer\n<<  /Size 6\n    /Root 1 0 R\n>>\nstartxref\n");
    push_number(file, at_table as u128);
    push_text(file, "\n%%EOF\n");
    assert(file@ =~= start + table(
        at_root as nat,
        at_pages as nat,
        at_contents as nat,
        at_length as nat,
        at_page as nat,
        at_table as nat,
    ));
}

/// The document for a laid-out tree, on a page as large as `bounds`.
pub fn render<'a>(layout_root: &LayoutBox<'a>, bounds: Rect) -> (file: Vec<u8>)
    requires
        -MAX_EXTENT <= bounds.width <= MAX_EXTENT,
        -MAX_EXTENT <= bounds.height <= MAX_EXTENT,
    ensures
        file@ == document(display_list(layout_root@), bounds),
{
    let list = build_display_list(layout_root);
    let width = bounds.width * 75;
    let height = bounds.height * 75;
    let stream = render_stream(&list, height);

    let mut file: Vec<u8> = Vec::new();
    write_header(&mut file);
    assert(file@ =~= header());
    let at_contents = file.len();
    write_contents(&mut file, &stream);
    let at_length = file.len();
    write_length(&mut file, stream.len());
    let at_page = file.len();
    write_page(&mut file, width, height);
    let at_pages = file.len();
    write_pages(&mut file);
    let at_root = file.len();
    write_root(&mut file);
    let at_table = file.len();
    write_table(&mut file, at_root, at_pages, at_contents, at_length, at_page, at_table);
    file
}

} // verus!
