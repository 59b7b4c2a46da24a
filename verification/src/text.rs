//! The texts printed on a page, and the escaping of text for markup.

use crate::craft::Papercraft;
use crate::fixed::{digits, push_digits};
use crate::geometry::Point2;
use crate::options::{EdgeIdPosition, PaperOptions};
use vstd::prelude::*;
use vstd::string::{StrSliceExecFns, StringExecFns};

verus! {

/// How a text is placed relative to its position: starting there, centred
/// on it, or ending there.
#[derive(Clone, Copy, Debug, PartialEq, Eq, Structural)]
pub enum TextAlign {
    Near,
    Center,
    Far,
}

/// A text to print.
#[derive(Debug)]
pub struct PrintableText {
    /// Font size, in millimetres.
    pub size: i64,
    pub pos: Point2,
    /// Rotation about `pos`, in degrees.
    pub angle: i64,
    pub align: TextAlign,
    pub text: String,
}

/// Whether the size of a text is within the range of sizes that are
/// printed.
pub open spec fn is_printable(text: PrintableText) -> bool {
    0 <= text.size <= crate::options::PAGE_MAX
}

/// Whether every one of `texts` is printable.
pub open spec fn texts_printable(texts: Seq<PrintableText>) -> bool {
    forall|i: int| 0 <= i < texts.len() ==> is_printable(#[trigger] texts[i])
}

/// Font size of the page footer, in millimetres.
pub const FONT_SIZE: i64 = 3_000_000;

/// The signature printed on each page and recorded as the creator of a
/// document.
pub open spec fn signature_text() -> Seq<char> {
    "Created with Papercraft Web. https://github.com/karma-works/papercraft-web"@
}

/// The signature printed on each page and recorded as the creator of a
/// document.
pub fn signature() -> (s: String)
    ensures
        s@ == signature_text(),
{
    String::from_str("Created with Papercraft Web. https://github.com/karma-works/papercraft-web")
}

/// What stands for the character `c` in markup: an entity for `&`, `<`,
/// `>` and `"`, the character itself for any other.
pub open spec fn escaped_char(c: char) -> Seq<char> {
    if c == '&' {
        "&amp;"@
    } else if c == '<' {
        "&lt;"@
    } else if c == '>' {
        "&gt;"@
    } else if c == '"' {
        "&quot;"@
    } else {
        seq![c]
    }
}

/// The text `s` with each character replaced by what stands for it in
/// markup.
pub open spec fn escaped(s: Seq<char>) -> Seq<char>
    decreases s.len(),
{
    if s.len() == 0 {
        Seq::empty()
    } else {
        escaped(s.drop_last()) + escaped_char(s.last())
    }
}

/// Escapes a text for markup.
pub fn html_escape(s: &str) -> (r: String)
    ensures
        r@ == escaped(s@),
{
    let n: usize = s.unicode_len();
    let mut r = String::new();
    let mut i: usize = 0;
    while i < n
        invariant
            n == s@.len(),
            i <= n,
            r@ == escaped(s@.take(i as int)),
        decreases n - i,
    {
        let c: char = s.get_char(i);
        proof {
            assert(s@.take(i + 1).drop_last() =~= s@.take(i as int));
            assert(s@.take(i + 1).last() == c);
        }
        if c == '&' {
            r.append("&amp;");
        } else if c == '<' {
            r.append("&lt;");
        } else if c == '>' {
            r.append("&gt;");
        } else if c == '"' {
            r.append("&quot;");
        } else {
            let ghost before = r@;
            r.push(c);
            assert(r@ =~= before + seq![c]);
        }
        i += 1;
    }
    proof {
        assert(s@.take(n as int) =~= s@);
    }
    r
}

/// The baseline of the page footer: one font size below the bottom margin,
/// but at least one font size above the lower edge of the page.
pub open spec fn footer_y(options: PaperOptions) -> int {
    let below_margin = options.page_size.1 - options.margin.3 + FONT_SIZE;
    let above_edge = options.page_size.1 - FONT_SIZE;
    if below_margin < above_edge {
        below_margin
    } else {
        above_edge
    }
}

/// The text of the page number of page `page`, counted from zero, of
/// `pages` pages.
pub open spec fn page_number_text(page: u32, pages: u32) -> Seq<char> {
    "Page "@ + digits((page + 1) as nat) + "/"@ + digits(pages as nat)
}

/// Size of the edge identifiers in millimetres: their size in points
/// times 25.4 / 72.
pub open spec fn edge_id_size(options: PaperOptions) -> int {
    crate::fixed::div_round(options.edge_id_font_size * 127, 360)
}

/// Whether `text` is the signature as printed on a page.
pub open spec fn is_signature_text(text: PrintableText, options: PaperOptions) -> bool {
    &&& text.size == FONT_SIZE
    &&& text.pos.x == options.margin.1
    &&& text.pos.y == footer_y(options)
    &&& text.angle == 0
    &&& text.align == TextAlign::Near
    &&& text.text@ == signature_text()
}

/// Whether `text` is the page number as printed on page `page`.
pub open spec fn is_page_number_text(text: PrintableText, options: PaperOptions, page: u32) -> bool {
    &&& text.size == FONT_SIZE
    &&& text.pos.x == options.page_size.0 - options.margin.2
    &&& text.pos.y == footer_y(options)
    &&& text.angle == 0
    &&& text.align == TextAlign::Far
    &&& text.text@ == page_number_text(page, options.pages)
}

/// Whether the name of the island at position `index` is printed on page
/// `page`: edge identifiers are on, and the island's position lies on the
/// page.
pub open spec fn names_island(craft: &Papercraft, options: PaperOptions, page: u32, index: int) -> bool {
    let island = craft.island_seq()[index];
    let origin = options.page_position_spec(page);
    &&& options.edge_id_position != EdgeIdPosition::NoIds
    &&& 0 <= island.pos.x - origin.x < options.page_size.0
    &&& 0 <= island.pos.y - origin.y < options.page_size.1
}

/// Whether `text` is the name of the island at position `index` as printed
/// on page `page`.
pub open spec fn is_island_name_text(
    text: PrintableText,
    craft: &Papercraft,
    options: PaperOptions,
    page: u32,
    index: int,
) -> bool {
    let island = craft.island_seq()[index];
    let origin = options.page_position_spec(page);
    &&& text.size == edge_id_size(options)
    &&& text.pos.x == island.pos.x - origin.x
    &&& text.pos.y == island.pos.y - origin.y
    &&& text.angle == 0
    &&& text.align == TextAlign::Center
    &&& text.text@ == island.name@
}

/// Number of the first `upto` islands whose name is printed on page `page`.
pub open spec fn names_before(craft: &Papercraft, options: PaperOptions, page: u32, upto: int) -> int
    decreases upto,
{
    if upto <= 0 {
        0
    } else {
        names_before(craft, options, page, upto - 1) + if names_island(
            craft,
            options,
            page,
            upto - 1,
        ) {
            1int
        } else {
            0int
        }
    }
}

/// Number of footer texts: the signature and the page number, each if the
/// options ask for it.
pub open spec fn footer_count(options: PaperOptions) -> int {
    (if options.show_self_promotion {
        1int
    } else {
        0int
    }) + (if options.show_page_number {
        1int
    } else {
        0int
    })
}

/// Whether `texts` are the texts of page `page`: the signature, if the
/// options ask for it, then the page number, if they ask for it, then the
/// names of the islands that lie on the page, if edge identifiers are on,
/// in the order of the islands.
pub open spec fn is_page_texts(
    texts: Seq<PrintableText>,
    craft: &Papercraft,
    options: PaperOptions,
    page: u32,
) -> bool {
    let count = craft.island_seq().len() as int;
    let footer = footer_count(options);
    &&& texts.len() == footer + names_before(craft, options, page, count)
    &&& options.show_self_promotion ==> is_signature_text(texts[0], options)
    &&& options.show_page_number ==> is_page_number_text(texts[footer - 1], options, page)
    &&& forall|i: int|
        0 <= i < count && names_island(craft, options, page, i) ==> is_island_name_text(
            #[trigger] texts[footer + names_before(craft, options, page, i)],
            craft,
            options,
            page,
            i,
        )
}

/// Collects the texts of page `page`: the signature, the page number and
/// the names of the islands.
pub fn collect_texts(craft: &Papercraft, options: &PaperOptions, page: u32) -> (texts: Vec<
    PrintableText,
>)
    requires
        craft.wf(),
        options.wf(),
    ensures
        is_page_texts(texts@, craft, *options, page),
        texts_printable(texts@),
{
    let mut texts: Vec<PrintableText> = Vec::new();
    let below_margin: i64 = options.page_size.1 - options.margin.3 + FONT_SIZE;
    let above_edge: i64 = options.page_size.1 - FONT_SIZE;
    let y: i64 = if below_margin < above_edge {
        below_margin
    } else {
        above_edge
    };
    if options.show_self_promotion {
        texts.push(
            PrintableText {
                size: FONT_SIZE,
                pos: Point2 { x: options.margin.1, y },
                angle: 0,
                align: TextAlign::Near,
                text: signature(),
            },
        );
    }
    if options.show_page_number {
        let mut text = String::from_str("Page ");
        push_digits(&mut text, page as u128 + 1);
        text.append("/");
        push_digits(&mut text, options.pages as u128);
        texts.push(
            PrintableText {
                size: FONT_SIZE,
                pos: Point2 { x: options.page_size.0 - options.margin.2, y },
                angle: 0,
                align: TextAlign::Far,
                text,
            },
        );
    }
    let ghost footer = footer_count(*options);
    if options.edge_id_position != EdgeIdPosition::NoIds {
        let wide: i128 = crate::fixed::round_div((options.edge_id_font_size as i128) * 127, 360);
        assert(wide == (254 * options.edge_id_font_size + 360) / 720);
        let size: i64 = wide as i64;
        let islands = craft.islands();
        let mut i: usize = 0;
        while i < islands.len()
            invariant
                craft.wf(),
                options.wf(),
                islands@ == craft.island_seq(),
                options.edge_id_position != EdgeIdPosition::NoIds,
                size == edge_id_size(*options),
                footer == footer_count(*options),
                i <= islands@.len(),
                texts@.len() == footer + names_before(craft, *options, page, i as int),
                texts_printable(texts@),
                0 <= size <= crate::options::PAGE_MAX,
                options.show_self_promotion ==> is_signature_text(texts@[0], *options),
                options.show_page_number ==> is_page_number_text(texts@[footer - 1], *options, page),
                forall|j: int|
                    0 <= j < i && names_island(craft, *options, page, j) ==> is_island_name_text(
                        #[trigger] texts@[footer + names_before(craft, *options, page, j)],
                        craft,
                        *options,
                        page,
                        j,
                    ),
                forall|j: int| 0 <= j <= i ==> 0 <= #[trigger] names_before(craft, *options, page, j) <= j,
            decreases islands@.len() - i,
        {
            proof {
                assert(crate::craft::island_ok(
                    craft.island_seq()[i as int],
                    craft.keys(),
                    craft.key_bound(),
                ));
                assert(names_before(craft, *options, page, i + 1) == names_before(
                    craft,
                    *options,
                    page,
                    i as int,
                ) + if names_island(craft, *options, page, i as int) {
                    1int
                } else {
                    0int
                });
            }
            let (inside, pos) = options.is_in_page(page, islands[i].pos);
            if inside {
                let ghost before = texts@;
                let name = islands[i].name.clone();
                texts.push(PrintableText { size, pos, angle: 0, align: TextAlign::Center, text: name });
                proof {
                    assert forall|j: int|
                        0 <= j < i + 1 && names_island(
                            craft,
                            *options,
                            page,
                            j,
                        ) implies is_island_name_text(
                        #[trigger] texts@[footer + names_before(craft, *options, page, j)],
                        craft,
                        *options,
                        page,
                        j,
                    ) by {
                        if j < i {
                            assert(names_before(craft, *options, page, j) <= j);
                            lemma_names_before_monotonic(craft, *options, page, j, i as int);
                            assert(texts@[footer + names_before(craft, *options, page, j)]
                                == before[footer + names_before(craft, *options, page, j)]);
                        }
                    }
                }
            }
            i += 1;
        }
    } else {
        proof {
            lemma_no_names(craft, *options, page, craft.island_seq().len() as int);
        }
    }
    texts
}

proof fn lemma_names_before_monotonic(
    craft: &Papercraft,
    options: PaperOptions,
    page: u32,
    j: int,
    i: int,
)
    requires
        0 <= j < i,
        names_island(craft, options, page, j),
    ensures
        names_before(craft, options, page, j) < names_before(craft, options, page, i),
    decreases i,
{
    if j + 1 < i {
        lemma_names_before_monotonic(craft, options, page, j, i - 1);
    }
}

proof fn lemma_no_names(craft: &Papercraft, options: PaperOptions, page: u32, upto: int)
    requires
        options.edge_id_position == EdgeIdPosition::NoIds,
    ensures
        names_before(craft, options, page, upto) == 0,
    decreases upto,
{
    if upto > 0 {
        lemma_no_names(craft, options, page, upto - 1);
    }
}

} // verus!
