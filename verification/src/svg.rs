//! SVG: preparing the text for the parser, and turning the parsed tree into draw commands.
use crate::codec;
use crate::codec::decode_pixels;
use crate::encoding;
use crate::encoding::{base64_decode, base64_encode};
use crate::page::{Color, DrawCommand, Fill, FillRule, ImageData, PathData, PathSegment, Stroke};
use crate::text;
use crate::text::utf8_str;
use regex::Regex;
use vstd::prelude::*;
use vstd::utf8::*;

verus! {

// ---------------------------------------------------------------------------
// Replacing what a regular expression matches.

/// The matches of a regular expression in a text, from left to right, each with the texts of its
/// groups: the whole match, then the groups in the order of their opening brackets. `None` where
/// the expression is not valid.
pub uninterp spec fn regex_matches(pattern: Seq<char>, text: Seq<char>) -> Option<
    Seq<Seq<Seq<char>>>,
>;

/// What stands between the matches of a regular expression in a text: before the first, between
/// each and the next, and after the last. `None` where the expression is not valid.
pub uninterp spec fn regex_between(pattern: Seq<char>, text: Seq<char>) -> Option<Seq<Seq<char>>>;

/// The characters of the groups of each match.
pub open spec fn group_texts(v: Seq<Vec<String>>) -> Seq<Seq<Seq<char>>> {
    Seq::new(v.len(), |i: int| text::texts(v[i]@))
}

/// `Regex::captures_iter` of the `regex` crate finds the matches of an expression that do not
/// overlap, from left to right, with the texts of their groups, each of which is a part of the text.
/// A group that took no part in its match is given as empty text.
#[verifier::external_body]
fn find_matches(pattern: &str, text: &str) -> (r: Option<Vec<Vec<String>>>)
    ensures
        (match r {
            Some(v) => Some(group_texts(v@)),
            None => None,
        }) == regex_matches(pattern@, text@),
        r matches Some(v) ==> forall|i: int, j: int|
            0 <= i < v@.len() && 0 <= j < v@[i]@.len() ==> text::occurs(
                text@,
                (#[trigger] v@[i]@[j])@,
            ),
{
    let re = Regex::new(pattern).ok()?;
    let groups = |c: regex::Captures| {
        c.iter().map(|g| g.map_or(String::new(), |m| m.as_str().to_string())).collect()
    };
    Some(re.captures_iter(text).map(groups).collect())
}

/// `Regex::split` of the `regex` crate gives what stands between the matches that `captures_iter`
/// finds: one text more than there are matches, and with the matches put back between them they are
/// the whole text.
#[verifier::external_body]
fn split_at_matches(pattern: &str, text: &str) -> (r: Option<Vec<String>>)
    ensures
        (match r {
            Some(v) => Some(text::texts(v@)),
            None => None,
        }) == regex_between(pattern@, text@),
        r is Some == regex_matches(pattern@, text@) is Some,
        r matches Some(v) ==> {
            let found = regex_matches(pattern@, text@)->Some_0;
            &&& v@.len() == found.len() + 1
            &&& interleaved(text::texts(v@), found.map_values(|groups: Seq<Seq<char>>| group(groups, 0)))
                == text@
        },
{
    let re = Regex::new(pattern).ok()?;
    Some(re.split(text).map(|s| s.to_string()).collect())
}

/// The group `i` of a match; empty where the expression has no such group.
pub open spec fn group(groups: Seq<Seq<char>>, i: int) -> Seq<char> {
    if 0 <= i < groups.len() {
        groups[i]
    } else {
        seq![]
    }
}

/// `between` with `subs` put into the gaps.
pub open spec fn interleaved(between: Seq<Seq<char>>, subs: Seq<Seq<char>>) -> Seq<char>
    decreases subs.len(),
{
    if subs.len() == 0 {
        group(between, 0)
    } else {
        interleaved(between, subs.drop_last()) + subs.last() + group(between, subs.len() as int)
    }
}

fn group_at(groups: &Vec<String>, i: usize) -> (r: &str)
    ensures
        r@ == group(text::texts(groups@), i as int),
{
    if i < groups.len() {
        groups[i].as_str()
    } else {
        let empty = "";
        proof {
            reveal_strlit("");
        }
        assert(empty@ =~= Seq::<char>::empty());
        empty
    }
}

fn interleave(between: &Vec<String>, subs: &Vec<String>) -> (r: String)
    ensures
        r@ == interleaved(text::texts(between@), text::texts(subs@)),
{
    let ghost all = text::texts(subs@);
    let mut out = String::new();
    out.append(group_at(between, 0));
    assert(out@ =~= interleaved(text::texts(between@), all.take(0)));
    for i in 0..subs.len()
        invariant
            all == text::texts(subs@),
            out@ == interleaved(text::texts(between@), all.take(i as int)),
    {
        assert(all.take(i + 1).drop_last() =~= all.take(i as int));
        out.append(subs[i].as_str());
        out.append(group_at(between, i + 1));
    }
    assert(all.take(all.len() as int) =~= all);
    out
}

// ---------------------------------------------------------------------------
// Placed copies.
//
// A copy that carries its placement on itself, `<use transform="T" ../>`, would be placed twice by
// the parser. A group that carries the placement, with the bare copy in it, means the same and is
// placed once.

/// Matches a copy that carries its placement: what stands before the placement, the placement, and
/// what stands after it.
pub const PLACED_USE: &'static str = "(?s)<use\\b([^>]*?)\\s+transform=\"([^\"]*)\"([^>]*?)\\s*/>";

/// Matches an SVG image that is embedded as base64: its base64 text.
pub const EMBEDDED_SVG: &'static str = "data:image/svg\\+xml;base64,([A-Za-z0-9+/=]+)";

/// The group that stands for a placed copy.
pub open spec fn use_in_group(groups: Seq<Seq<char>>) -> Seq<char> {
    "<g transform=\""@ + group(groups, 2) + "\"><use"@ + group(groups, 1) + group(groups, 3)
        + "/></g>"@
}

/// The bytes whose base64 text is `text`.
pub open spec fn base64_bytes(text: Seq<char>) -> Seq<u8> {
    choose|bytes: Seq<u8>| #[trigger] encoding::base64_text(bytes) == text
}

/// Whether `text` is the base64 text of UTF-8 text.
pub open spec fn embeds_text(text: Seq<char>) -> bool {
    encoding::is_base64(text) && valid_utf8(base64_bytes(text))
}

/// Whether `text` is the base64 text of UTF-8 text that is shorter than `limit` bytes.
pub open spec fn embeds_shorter_text(text: Seq<char>, limit: nat) -> bool {
    embeds_text(text) && base64_bytes(text).len() < limit
}

/// Whether every image among `found` that embeds UTF-8 text embeds one shorter than `limit` bytes.
pub open spec fn none_is_longer(found: Seq<Seq<Seq<char>>>, limit: nat) -> bool {
    forall|i: int|
        0 <= i < found.len() && embeds_text(group(#[trigger] found[i], 1)) ==> embeds_shorter_text(
            group(found[i], 1),
            limit,
        )
}

/// An embedded SVG image with its own text rewritten. What is not the base64 text of a text shorter
/// than `limit` bytes stays as it is; base64 makes text longer, so that an image is always shorter
/// than the text around it.
pub open spec fn rewritten_image(groups: Seq<Seq<char>>, limit: nat) -> Seq<char>
    decreases limit, 0nat, 0nat,
{
    if embeds_shorter_text(group(groups, 1), limit) {
        let inner = decode_utf8(base64_bytes(group(groups, 1)));
        proof {
            decode_utf8_encode_utf8(base64_bytes(group(groups, 1)));
        }
        "data:image/svg+xml;base64,"@ + encoding::base64_text(encode_utf8(rewritten(inner)))
    } else {
        group(groups, 0)
    }
}

/// The embedded SVG images `found`, each rewritten.
pub open spec fn rewritten_images(found: Seq<Seq<Seq<char>>>, limit: nat) -> Seq<Seq<char>>
    decreases limit, 1nat, found.len(),
{
    if found.len() == 0 {
        seq![]
    } else {
        rewritten_images(found.drop_last(), limit).push(rewritten_image(found.last(), limit))
    }
}

/// `svg` with the text of every embedded SVG image rewritten.
pub open spec fn with_images_rewritten(svg: Seq<char>) -> Seq<char>
    decreases encode_utf8(svg).len(), 2nat, 0nat,
{
    match (regex_matches(EMBEDDED_SVG@, svg), regex_between(EMBEDDED_SVG@, svg)) {
        (Some(found), Some(between)) => interleaved(
            between,
            rewritten_images(found, encode_utf8(svg).len()),
        ),
        _ => svg,
    }
}

/// `svg` with every placed copy put into a group.
pub open spec fn with_uses_grouped(svg: Seq<char>) -> Seq<char> {
    match (regex_matches(PLACED_USE@, svg), regex_between(PLACED_USE@, svg)) {
        (Some(found), Some(between)) => interleaved(
            between,
            found.map_values(|groups: Seq<Seq<char>>| use_in_group(groups)),
        ),
        _ => svg,
    }
}

/// `svg` with every placed copy put into a group, in the embedded SVG images too.
pub open spec fn rewritten(svg: Seq<char>) -> Seq<char>
    decreases encode_utf8(svg).len(), 3nat, 0nat,
{
    with_uses_grouped(with_images_rewritten(svg))
}

/// Puts the placed copies that were `found` into groups, `between` being what stands between them.
pub fn group_found_uses(found: &Vec<Vec<String>>, between: &Vec<String>) -> (r: String)
    ensures
        r@ == interleaved(
            text::texts(between@),
            group_texts(found@).map_values(|groups: Seq<Seq<char>>| use_in_group(groups)),
        ),
{
    let ghost all = group_texts(found@);
    let ghost subs = all.map_values(|groups: Seq<Seq<char>>| use_in_group(groups));
    let mut new: Vec<String> = Vec::new();
    for i in 0..found.len()
        invariant
            all == group_texts(found@),
            subs == all.map_values(|groups: Seq<Seq<char>>| use_in_group(groups)),
            text::texts(new@) =~= subs.take(i as int),
    {
        let mut sub = "<g transform=\"".to_owned();
        sub.append(group_at(&found[i], 2));
        sub.append("\"><use");
        sub.append(group_at(&found[i], 1));
        sub.append(group_at(&found[i], 3));
        sub.append("/></g>");
        assert(sub@ == use_in_group(all[i as int]));
        let ghost before = text::texts(new@);
        new.push(sub);
        assert(text::texts(new@) =~= before.push(subs[i as int]));
        assert(subs.take(i + 1) =~= subs.take(i as int).push(subs[i as int]));
    }
    assert(text::texts(new@) =~= subs);
    interleave(between, &new)
}

/// Puts every placed copy into a group.
fn group_uses(svg: &str) -> (r: String)
    ensures
        r@ == with_uses_grouped(svg@),
        regex_matches(PLACED_USE@, svg@) matches Some(found) ==> found.len() == 0 ==> r@ == svg@,
{
    match (find_matches(PLACED_USE, svg), split_at_matches(PLACED_USE, svg)) {
        (Some(found), Some(between)) => {
            proof {
                let all = group_texts(found@);
                let whole = all.map_values(|groups: Seq<Seq<char>>| group(groups, 0));
                let subs = all.map_values(|groups: Seq<Seq<char>>| use_in_group(groups));
                assert(all.len() == 0 ==> whole =~= subs);
            }
            group_found_uses(&found, &between)
        },
        _ => svg.to_owned(),
    }
}

proof fn lemma_utf8_is_no_shorter(s: Seq<char>)
    ensures
        encode_utf8(s).len() >= s.len(),
    decreases s.len(),
{
    if s.len() > 0 {
        lemma_utf8_is_no_shorter(s.drop_first());
    }
}

/// An image that stands in a text embeds less than the text.
proof fn lemma_image_is_shorter(svg: Seq<char>, part: Seq<char>)
    requires
        svg.len() > 0,
        text::occurs(svg, part),
        encoding::is_base64(part),
    ensures
        base64_bytes(part).len() < encode_utf8(svg).len(),
{
    lemma_utf8_is_no_shorter(svg);
    encoding::law_base64_length(base64_bytes(part));
}

/// Rewrites the text of one embedded SVG image.
fn rewrite_image(groups: &Vec<String>, limit: usize) -> (r: String)
    ensures
        r@ == rewritten_image(text::texts(groups@), limit as nat),
    decreases limit, 0nat,
{
    let text = group_at(groups, 1);
    if let Some(bytes) = base64_decode(text) {
        proof {
            encoding::law_base64_injective(bytes@, base64_bytes(text@));
        }
        if bytes.len() < limit {
            if let Some(inner) = utf8_str(bytes.as_slice()) {
                proof {
                    decode_utf8_encode_utf8(bytes@);
                }
                let new = rewrite_use_transforms(inner);
                let mut out = "data:image/svg+xml;base64,".to_owned();
                let code = base64_encode(new.as_str().as_bytes());
                out.append(code.as_str());
                return out;
            }
        }
    }
    group_at(groups, 0).to_owned()
}

/// Rewrites the embedded SVG images that were `found` in a text of `limit` bytes, `between` being
/// what stands between them.
pub fn rewrite_found_images(found: &Vec<Vec<String>>, between: &Vec<String>, limit: usize) -> (r:
    String)
    ensures
        r@ == interleaved(
            text::texts(between@),
            rewritten_images(group_texts(found@), limit as nat),
        ),
    decreases limit, 1nat,
{
    let ghost all = group_texts(found@);
    let mut new: Vec<String> = Vec::new();
    assert(text::texts(new@) =~= rewritten_images(all.take(0), limit as nat));
    for i in 0..found.len()
        invariant
            all == group_texts(found@),
            text::texts(new@) == rewritten_images(all.take(i as int), limit as nat),
    {
        let sub = rewrite_image(&found[i], limit);
        let ghost before = text::texts(new@);
        let ghost sub_text = sub@;
        new.push(sub);
        assert(all.take(i + 1).drop_last() =~= all.take(i as int));
        assert(text::texts(new@) =~= before.push(sub_text));
    }
    assert(all.take(all.len() as int) =~= all);
    interleave(between, &new)
}

/// Rewrites the text of every embedded SVG image.
fn rewrite_images(svg: &str) -> (r: String)
    ensures
        r@ == with_images_rewritten(svg@),
        regex_matches(EMBEDDED_SVG@, svg@) matches Some(found) ==> found.len() == 0 ==> r@ == svg@,
        regex_matches(EMBEDDED_SVG@, svg@) matches Some(found) ==> svg@.len() > 0 ==> none_is_longer(
            found,
            encode_utf8(svg@).len(),
        ),
    decreases encode_utf8(svg@).len(), 2nat,
{
    match (find_matches(EMBEDDED_SVG, svg), split_at_matches(EMBEDDED_SVG, svg)) {
        (Some(found), Some(between)) => {
            let limit: usize = svg.as_bytes().len();
            proof {
                let all = group_texts(found@);
                let whole = all.map_values(|groups: Seq<Seq<char>>| group(groups, 0));
                assert(all.len() == 0 ==> whole =~= rewritten_images(all, limit as nat));
                if svg@.len() > 0 {
                    assert forall|i: int|
                        0 <= i < all.len() && embeds_text(
                            group(#[trigger] all[i], 1),
                        ) implies embeds_shorter_text(group(all[i], 1), limit as nat) by {
                        let part = group(all[i], 1);
                        if found@[i]@.len() > 1 {
                            assert(text::occurs(svg@, found@[i]@[1]@));
                        } else {
                            assert(text::occurs_at(svg@, part, 0)) by {
                                assert(svg@.subrange(0, 0) =~= part);
                            }
                        }
                        lemma_image_is_shorter(svg@, part);
                    }
                }
            }
            rewrite_found_images(&found, &between, limit)
        },
        _ => svg.to_owned(),
    }
}

/// Puts every placed copy of an SVG text into a group, in the embedded SVG images too, none of which
/// is passed over for its length. A text with neither is left as it is.
pub fn rewrite_use_transforms(svg: &str) -> (r: String)
    ensures
        r@ == rewritten(svg@),
        regex_matches(EMBEDDED_SVG@, svg@) == Some(Seq::<Seq<Seq<char>>>::empty())
            && regex_matches(PLACED_USE@, svg@) == Some(Seq::<Seq<Seq<char>>>::empty()) ==> r@
            == svg@,
        regex_matches(EMBEDDED_SVG@, svg@) matches Some(found) ==> svg@.len() > 0 ==> none_is_longer(
            found,
            encode_utf8(svg@).len(),
        ),
    decreases encode_utf8(svg@).len(), 3nat,
{
    let nested = rewrite_images(svg);
    group_uses(nested.as_str())
}

/// What is handed to the SVG parser for the contents of a file: UTF-8 text is rewritten, anything
/// else, such as compressed text, is left as it is.
pub open spec fn parser_input(data: Seq<u8>) -> Seq<u8> {
    if valid_utf8(data) {
        encode_utf8(rewritten(decode_utf8(data)))
    } else {
        data
    }
}

/// Prepares the contents of an SVG file for the parser.
pub fn prepare(data: &[u8]) -> (r: Vec<u8>)
    ensures
        r@ == parser_input(data@),
{
    let mut out: Vec<u8> = Vec::new();
    match utf8_str(data) {
        Some(text) => {
            let new = rewrite_use_transforms(text);
            out.extend_from_slice(new.as_str().as_bytes());
        },
        None => {
            out.extend_from_slice(data);
        },
    }
    assert(out@ =~= parser_input(data@));
    out
}

// ---------------------------------------------------------------------------
// Raster images.

/// The image of decoded pixels, with their width and height, placed in the rectangle `rect`.
pub fn placed_image<T>(pixels: Option<(Vec<u8>, u32, u32)>, rect: [T; 4]) -> (r: Option<
    ImageData<T>,
>)
    ensures
        r is Some == pixels is Some,
        r matches Some(image) ==> {
            &&& image.rgba@ == pixels->Some_0.0@
            &&& image.px_width == pixels->Some_0.1
            &&& image.px_height == pixels->Some_0.2
            &&& image.rect == rect
        },
{
    match pixels {
        Some((rgba, px_width, px_height)) => Some(ImageData { rgba, px_width, px_height, rect }),
        None => None,
    }
}

/// Decodes a raster image that is placed in the rectangle `rect`.
pub fn decode_raster<T>(data: &[u8], rect: [T; 4]) -> (r: Option<ImageData<T>>)
    ensures
        r is Some == codec::decoded_pixels(data@) is Some,
        r matches Some(image) ==> {
            &&& codec::decoded_pixels(data@) == Some((image.rgba@, image.px_width, image.px_height))
            &&& image.rgba@.len() == image.px_width * image.px_height * 4
            &&& image.rect == rect
        },
{
    placed_image(decode_pixels(data), rect)
}

// ---------------------------------------------------------------------------
// Paint.

/// A colour without transparency.
#[derive(Clone, Copy, Debug, PartialEq, Eq, Structural)]
pub struct Rgb {
    pub r: u8,
    pub g: u8,
    pub b: u8,
}

/// What a fill or a stroke is painted with. A gradient is given by the colours of its stops.
pub enum Paint {
    Color(Rgb),
    LinearGradient(Vec<Rgb>),
    RadialGradient(Vec<Rgb>),
    Pattern,
}

/// The first of the stops of a gradient.
pub open spec fn first_stop(stops: Seq<Rgb>) -> Option<Rgb> {
    if stops.len() > 0 {
        Some(stops[0])
    } else {
        None
    }
}

/// The one colour that a paint comes down to: a gradient is painted in the colour of its first
/// stop, a pattern is not painted.
pub open spec fn paint_rgb(paint: Paint) -> Option<Rgb> {
    match paint {
        Paint::Color(c) => Some(c),
        Paint::LinearGradient(stops) => first_stop(stops@),
        Paint::RadialGradient(stops) => first_stop(stops@),
        Paint::Pattern => None,
    }
}

/// `rgb` with the alpha `a`.
pub open spec fn with_alpha(rgb: Option<Rgb>, a: u8) -> Option<Color> {
    match rgb {
        Some(c) => Some(Color { r: c.r, g: c.g, b: c.b, a }),
        None => None,
    }
}

/// The one colour that a paint of the given alpha comes down to.
pub fn paint_color(paint: &Paint, alpha: u8) -> (r: Option<Color>)
    ensures
        r == with_alpha(paint_rgb(*paint), alpha),
{
    let color = match paint {
        Paint::Color(c) => *c,
        Paint::LinearGradient(stops) => {
            if stops.len() == 0 {
                return None;
            }
            stops[0]
        },
        Paint::RadialGradient(stops) => {
            if stops.len() == 0 {
                return None;
            }
            stops[0]
        },
        Paint::Pattern => {
            return None;
        },
    };
    Some(Color::rgba(color.r, color.g, color.b, alpha))
}

/// A fill as the document has it.
pub struct SvgFill {
    pub paint: Paint,
    pub alpha: u8,
    pub rule: FillRule,
}

/// A stroke as the document has it.
pub struct SvgStroke<T> {
    pub paint: Paint,
    pub alpha: u8,
    /// The width on the page.
    pub width: T,
}

/// A fill that comes down to one colour.
pub open spec fn converted_fill(fill: Option<SvgFill>) -> Option<Fill> {
    match fill {
        Some(f) => match with_alpha(paint_rgb(f.paint), f.alpha) {
            Some(color) => Some(Fill { color, rule: f.rule }),
            None => None,
        },
        None => None,
    }
}

/// A stroke that comes down to one colour.
pub open spec fn converted_stroke<T>(stroke: Option<SvgStroke<T>>) -> Option<Stroke<T>> {
    match stroke {
        Some(s) => match with_alpha(paint_rgb(s.paint), s.alpha) {
            Some(color) => Some(Stroke { color, width: s.width }),
            None => None,
        },
        None => None,
    }
}

/// The fill, if it comes down to one colour.
pub fn convert_fill(fill: &Option<SvgFill>) -> (r: Option<Fill>)
    ensures
        r == converted_fill(*fill),
        r matches Some(f) ==> (fill matches Some(given) && f.rule == given.rule && f.color.a
            == given.alpha),
{
    match fill {
        Some(f) => match paint_color(&f.paint, f.alpha) {
            Some(color) => Some(Fill { color, rule: f.rule }),
            None => None,
        },
        None => None,
    }
}

/// The stroke, if it comes down to one colour.
pub fn convert_stroke<T: Copy>(stroke: &Option<SvgStroke<T>>) -> (r: Option<Stroke<T>>)
    ensures
        r == converted_stroke(*stroke),
        r matches Some(s) ==> (stroke matches Some(given) && s.width == given.width && s.color.a
            == given.alpha),
{
    match stroke {
        Some(s) => match paint_color(&s.paint, s.alpha) {
            Some(color) => Some(Stroke { color, width: s.width }),
            None => None,
        },
        None => None,
    }
}

// ---------------------------------------------------------------------------
// The tree.

/// A path of the document, its coordinates those of the page.
pub struct SvgPath<T> {
    pub visible: bool,
    pub segments: Vec<PathSegment<T>>,
    pub fill: Option<SvgFill>,
    pub stroke: Option<SvgStroke<T>>,
    /// Where the stroke is dashed: the dashes.
    pub dashes: Option<Vec<PathSegment<T>>>,
}

/// What an image of the document shows.
pub enum SvgPicture<T> {
    /// Pixels, where they could be decoded.
    Raster(Option<ImageData<T>>),
    /// Another document, where it has an area. Its coordinates are those of the page.
    Nested(Option<Vec<SvgNode<T>>>),
}

/// An image of the document.
pub struct SvgImage<T> {
    pub visible: bool,
    pub picture: SvgPicture<T>,
}

/// A node of the document.
pub enum SvgNode<T> {
    Group(Vec<SvgNode<T>>),
    Path(SvgPath<T>),
    Image(SvgImage<T>),
    /// Text that has not been turned into paths. It is not drawn.
    Text,
}

/// What a draw command draws.
pub enum Drawn<T> {
    Path { segments: Seq<PathSegment<T>>, fill: Option<Fill>, stroke: Option<Stroke<T>> },
    Image { rgba: Seq<u8>, px_width: u32, px_height: u32, rect: [T; 4] },
}

/// What a draw command draws.
pub open spec fn drawn<T>(command: DrawCommand<T>) -> Drawn<T> {
    match command {
        DrawCommand::Path(p) => Drawn::Path {
            segments: p.segments@,
            fill: p.fill,
            stroke: p.stroke,
        },
        DrawCommand::Image(i) => Drawn::Image {
            rgba: i.rgba@,
            px_width: i.px_width,
            px_height: i.px_height,
            rect: i.rect,
        },
    }
}

/// What draw commands draw, in order.
pub open spec fn all_drawn<T>(commands: Seq<DrawCommand<T>>) -> Seq<Drawn<T>> {
    Seq::new(commands.len(), |i: int| drawn(commands[i]))
}

/// What a path draws: nothing if it is not visible, has no segments, or has neither a fill nor a
/// stroke. If its stroke is dashed, first its fill, then its dashes, as far as it has them.
pub open spec fn path_drawn<T>(p: SvgPath<T>) -> Seq<Drawn<T>> {
    let segments = p.segments@;
    let fill = converted_fill(p.fill);
    let stroke = converted_stroke(p.stroke);
    if !p.visible || segments.len() == 0 || (fill is None && stroke is None) {
        seq![]
    } else {
        match (stroke, p.dashes) {
            (Some(_), Some(dashes)) => {
                let filled = if fill is Some {
                    seq![Drawn::Path { segments, fill, stroke: None }]
                } else {
                    seq![]
                };
                let dashed = if dashes@.len() > 0 {
                    seq![Drawn::Path { segments: dashes@, fill: None, stroke }]
                } else {
                    seq![]
                };
                filled + dashed
            },
            _ => seq![Drawn::Path { segments, fill, stroke }],
        }
    }
}

/// What a node draws. A group draws what its children draw, an image that shows another document
/// what that document draws.
pub open spec fn node_drawn<T>(node: SvgNode<T>) -> Seq<Drawn<T>>
    decreases node, 0nat,
{
    match node {
        SvgNode::Group(children) => nodes_drawn(children@, children@.len()),
        SvgNode::Path(p) => path_drawn(p),
        SvgNode::Image(image) => if image.visible {
            match image.picture {
                SvgPicture::Raster(Some(i)) => seq![drawn(DrawCommand::Image(i))],
                SvgPicture::Nested(Some(nodes)) => nodes_drawn(nodes@, nodes@.len()),
                _ => seq![],
            }
        } else {
            seq![]
        },
        SvgNode::Text => seq![],
    }
}

/// What the first `n` of the nodes draw, in order.
pub open spec fn nodes_drawn<T>(nodes: Seq<SvgNode<T>>, n: nat) -> Seq<Drawn<T>>
    decreases nodes, n,
{
    if n == 0 || n > nodes.len() {
        seq![]
    } else {
        nodes_drawn(nodes, (n - 1) as nat) + node_drawn(nodes[n - 1])
    }
}

/// Appends what draws a path.
pub fn push_path<T: Copy>(path: SvgPath<T>, out: &mut Vec<DrawCommand<T>>)
    ensures
        all_drawn(final(out)@) == all_drawn(old(out)@) + path_drawn(path),
{
    let ghost p = path;
    if !path.visible || path.segments.len() == 0 {
        assert(all_drawn(out@) =~= all_drawn(old(out)@) + path_drawn(p));
        return;
    }
    let fill = convert_fill(&path.fill);
    let stroke = convert_stroke(&path.stroke);
    if fill.is_none() && stroke.is_none() {
        assert(all_drawn(out@) =~= all_drawn(old(out)@) + path_drawn(p));
        return;
    }
    if stroke.is_some() && path.dashes.is_some() {
        if fill.is_some() {
            out.push(DrawCommand::Path(PathData { segments: path.segments, fill, stroke: None }));
        }
        if let Some(dashes) = path.dashes {
            if dashes.len() > 0 {
                out.push(DrawCommand::Path(PathData { segments: dashes, fill: None, stroke }));
            }
        }
    } else {
        out.push(DrawCommand::Path(PathData { segments: path.segments, fill, stroke }));
    }
    assert(all_drawn(out@) =~= all_drawn(old(out)@) + path_drawn(p));
}

/// Appends what draws an image.
pub fn convert_image<T: Copy>(image: SvgImage<T>, out: &mut Vec<DrawCommand<T>>)
    ensures
        all_drawn(final(out)@) == all_drawn(old(out)@) + node_drawn(SvgNode::Image(image)),
    decreases image,
{
    let ghost whole = image;
    if image.visible {
        match image.picture {
            SvgPicture::Raster(Some(i)) => {
                out.push(DrawCommand::Image(i));
            },
            SvgPicture::Nested(Some(nodes)) => {
                walk(nodes, out);
            },
            _ => {},
        }
    }
    assert(all_drawn(out@) =~= all_drawn(old(out)@) + node_drawn(SvgNode::Image(whole)));
}

/// Appends what draws the nodes, in order.
pub fn walk<T: Copy>(nodes: Vec<SvgNode<T>>, out: &mut Vec<DrawCommand<T>>)
    ensures
        all_drawn(final(out)@) == all_drawn(old(out)@) + nodes_drawn(nodes@, nodes@.len()),
    decreases nodes,
{
    let ghost all = nodes@;
    assert(all_drawn(out@) =~= all_drawn(old(out)@) + nodes_drawn(all, 0));
    for node in it: nodes
        invariant
            all == nodes@,
            it.seq() == all,
            all_drawn(out@) == all_drawn(old(out)@) + nodes_drawn(all, it.index() as nat),
    {
        let ghost i = it.index();
        let ghost before = all_drawn(out@);
        assert(node == all[i as int]);
        match node {
            SvgNode::Group(children) => {
                walk(children, out);
            },
            SvgNode::Path(p) => {
                push_path(p, out);
            },
            SvgNode::Image(image) => {
                convert_image(image, out);
            },
            SvgNode::Text => {},
        }
        assert(all_drawn(out@) =~= before + node_drawn(all[i as int]));
        assert(all_drawn(out@) =~= all_drawn(old(out)@) + nodes_drawn(all, (i + 1) as nat));
    }
}

proof fn lemma_drawn_across<T>(a: Seq<SvgNode<T>>, b: Seq<SvgNode<T>>, n: nat)
    requires
        n <= a.len() + b.len(),
    ensures
        n <= a.len() ==> nodes_drawn(a + b, n) == nodes_drawn(a, n),
        n > a.len() ==> nodes_drawn(a + b, n) == nodes_drawn(a, a.len()) + nodes_drawn(
            b,
            (n - a.len()) as nat,
        ),
    decreases n,
{
    if n > 0 {
        lemma_drawn_across(a, b, (n - 1) as nat);
        if n <= a.len() {
            assert((a + b)[n - 1] == a[n - 1]);
        } else {
            let k = (n - a.len()) as nat;
            assert((a + b)[n - 1] == b[k - 1]);
            let head = nodes_drawn(a, a.len());
            assert(nodes_drawn(b, 0) =~= Seq::<Drawn<T>>::empty());
            assert(head + nodes_drawn(b, (k - 1) as nat) + node_drawn(b[k - 1]) =~= head
                + nodes_drawn(b, k));
            assert(head + Seq::<Drawn<T>>::empty() =~= head);
        }
    }
}

/// Nodes draw in document order: what comes first in the document is drawn first, and no node
/// changes what another draws.
pub proof fn law_draws_in_document_order<T>(a: Seq<SvgNode<T>>, b: Seq<SvgNode<T>>)
    ensures
        nodes_drawn(a + b, (a + b).len()) == nodes_drawn(a, a.len()) + nodes_drawn(b, b.len()),
{
    lemma_drawn_across(a, b, a.len() + b.len());
    if b.len() == 0 {
        assert(a + b =~= a);
        assert(nodes_drawn(a, a.len()) + nodes_drawn(b, 0) =~= nodes_drawn(a, a.len()));
    }
}

// ---------------------------------------------------------------------------
// What is drawn is what the document says.

/// Whether a paint shows in the colour `rgb`: it is that colour, or a gradient that begins with it.
pub open spec fn shows_as(paint: Paint, rgb: Rgb) -> bool {
    match paint {
        Paint::Color(color) => color == rgb,
        Paint::LinearGradient(stops) => stops@.len() > 0 && stops@[0] == rgb,
        Paint::RadialGradient(stops) => stops@.len() > 0 && stops@[0] == rgb,
        Paint::Pattern => false,
    }
}

/// Whether a colour is `rgb` with the alpha `a`.
pub open spec fn is_colour(color: Color, rgb: Rgb, a: u8) -> bool {
    color.r == rgb.r && color.g == rgb.g && color.b == rgb.b && color.a == a
}

/// A fill keeps the rule, the colour and the alpha that the document gives it. It is dropped only
/// where its paint shows in no colour.
pub proof fn law_fill_is_kept(fill: SvgFill)
    ensures
        forall|rgb: Rgb| #[trigger]
            shows_as(fill.paint, rgb) ==> (converted_fill(Some(fill)) matches Some(f) && is_colour(
                f.color,
                rgb,
                fill.alpha,
            ) && f.rule == fill.rule),
        converted_fill(Some(fill)) is None ==> forall|rgb: Rgb| !#[trigger] shows_as(fill.paint, rgb),
        converted_fill(Some(fill)) matches Some(f) ==> f.rule == fill.rule && shows_as(
            fill.paint,
            Rgb { r: f.color.r, g: f.color.g, b: f.color.b },
        ) && f.color.a == fill.alpha,
        converted_fill(None) is None,
{
}

/// A stroke keeps the width, the colour and the alpha that the document gives it. It is dropped only
/// where its paint shows in no colour.
pub proof fn law_stroke_is_kept<T>(stroke: SvgStroke<T>)
    ensures
        forall|rgb: Rgb| #[trigger]
            shows_as(stroke.paint, rgb) ==> (converted_stroke(Some(stroke)) matches Some(s)
                && is_colour(s.color, rgb, stroke.alpha) && s.width == stroke.width),
        converted_stroke(Some(stroke)) is None ==> forall|rgb: Rgb| !#[trigger] shows_as(
            stroke.paint,
            rgb,
        ),
        converted_stroke(Some(stroke)) matches Some(s) ==> s.width == stroke.width && shows_as(
            stroke.paint,
            Rgb { r: s.color.r, g: s.color.g, b: s.color.b },
        ) && s.color.a == stroke.alpha,
        converted_stroke::<T>(None) is None,
{
}

/// Whether a fill of the document paints something.
pub open spec fn fill_shows(fill: Option<SvgFill>) -> bool {
    fill matches Some(f) && exists|rgb: Rgb| shows_as(f.paint, rgb)
}

/// Whether a stroke of the document paints something.
pub open spec fn stroke_shows<T>(stroke: Option<SvgStroke<T>>) -> bool {
    stroke matches Some(s) && exists|rgb: Rgb| shows_as(s.paint, rgb)
}

/// Whether a drawn path has the fill `fill`, with its rule, colour and alpha, or none where that
/// does not show.
pub open spec fn filled_by<T>(d: Drawn<T>, fill: Option<SvgFill>) -> bool {
    d matches Drawn::Path { fill: painted, .. } && if fill_shows(fill) {
        painted matches Some(f) && f.rule == fill->0.rule && f.color.a == fill->0.alpha && shows_as(
            fill->0.paint,
            Rgb { r: f.color.r, g: f.color.g, b: f.color.b },
        )
    } else {
        painted is None
    }
}

/// Whether a drawn path has the stroke `stroke`, with its width, colour and alpha, or none where
/// that does not show.
pub open spec fn stroked_by<T>(d: Drawn<T>, stroke: Option<SvgStroke<T>>) -> bool {
    d matches Drawn::Path { stroke: painted, .. } && if stroke_shows(stroke) {
        painted matches Some(s) && s.width == stroke->0.width && s.color.a == stroke->0.alpha
            && shows_as(
            stroke->0.paint,
            Rgb { r: s.color.r, g: s.color.g, b: s.color.b },
        )
    } else {
        painted is None
    }
}

/// The segments of a drawn path.
pub open spec fn outline<T>(d: Drawn<T>) -> Seq<PathSegment<T>> {
    match d {
        Drawn::Path { segments, .. } => segments,
        Drawn::Image { .. } => seq![],
    }
}

proof fn lemma_shows<T>(p: SvgPath<T>)
    ensures
        fill_shows(p.fill) == converted_fill(p.fill) is Some,
        stroke_shows(p.stroke) == converted_stroke(p.stroke) is Some,
{
    if let Some(f) = p.fill {
        law_fill_is_kept(f);
        if let Some(c) = converted_fill(p.fill) {
            assert(shows_as(f.paint, Rgb { r: c.color.r, g: c.color.g, b: c.color.b }));
        }
    }
    if let Some(s) = p.stroke {
        law_stroke_is_kept(s);
        if let Some(c) = converted_stroke(p.stroke) {
            assert(shows_as(s.paint, Rgb { r: c.color.r, g: c.color.g, b: c.color.b }));
        }
    }
}

/// A path that is visible, has segments, shows a fill or a stroke, and whose stroke is not dashed, is
/// drawn once, along its own segments, with its own fill and its own stroke. One that is not visible,
/// has no segments, or shows neither is not drawn.
pub proof fn law_path_is_drawn_as_it_is<T>(p: SvgPath<T>)
    ensures
        !p.visible || p.segments@.len() == 0 ==> path_drawn(p).len() == 0,
        !fill_shows(p.fill) && !stroke_shows(p.stroke) ==> path_drawn(p).len() == 0,
        p.visible && p.segments@.len() > 0 && (fill_shows(p.fill) || stroke_shows(p.stroke)) && (
        p.dashes is None || !stroke_shows(p.stroke)) ==> {
            &&& path_drawn(p).len() == 1
            &&& outline(path_drawn(p)[0]) == p.segments@
            &&& filled_by(path_drawn(p)[0], p.fill)
            &&& stroked_by(path_drawn(p)[0], p.stroke)
        },
{
    lemma_shows(p);
}

/// A path whose stroke is dashed is drawn in two: its fill along its own segments, under its stroke
/// along the dashes.
pub proof fn law_dashed_path_is_drawn_in_two<T>(p: SvgPath<T>, dashes: Vec<PathSegment<T>>)
    requires
        p.visible,
        p.segments@.len() > 0,
        stroke_shows(p.stroke),
        p.dashes == Some(dashes),
    ensures
        path_drawn(p).len() == (if fill_shows(p.fill) {
            1int
        } else {
            0
        }) + (if dashes@.len() > 0 {
            1int
        } else {
            0
        }),
        fill_shows(p.fill) ==> {
            let d = path_drawn(p)[0];
            outline(d) == p.segments@ && filled_by(d, p.fill) && stroked_by(d, None)
        },
        dashes@.len() > 0 ==> {
            let d = path_drawn(p).last();
            outline(d) == dashes@ && filled_by(d, None) && stroked_by(d, p.stroke)
        },
{
    lemma_shows(p);
}

/// A group draws what its children draw, one after the other; an image draws its pixels where it
/// lies, or what the document in it draws; what is not visible, and text, draws nothing.
pub proof fn law_nodes_draw_their_own<T>(
    children: Vec<SvgNode<T>>,
    path: SvgPath<T>,
    image: ImageData<T>,
    picture: SvgPicture<T>,
)
    ensures
        node_drawn(SvgNode::Group(children)) == nodes_drawn(children@, children@.len()),
        node_drawn(SvgNode::Path(path)) == path_drawn(path),
        node_drawn(
            SvgNode::Image(SvgImage { visible: true, picture: SvgPicture::Raster(Some(image)) }),
        ) == seq![
            Drawn::Image {
                rgba: image.rgba@,
                px_width: image.px_width,
                px_height: image.px_height,
                rect: image.rect,
            },
        ],
        node_drawn(
            SvgNode::Image(SvgImage { visible: true, picture: SvgPicture::Nested(Some(children)) }),
        ) == nodes_drawn(children@, children@.len()),
        node_drawn(SvgNode::Image(SvgImage { visible: false, picture })).len() == 0,
        node_drawn(SvgNode::<T>::Text).len() == 0,
{
    assert(node_drawn(
        SvgNode::Image(SvgImage { visible: true, picture: SvgPicture::Raster(Some(image)) }),
    ) =~= seq![
        Drawn::Image {
            rgba: image.rgba@,
            px_width: image.px_width,
            px_height: image.px_height,
            rect: image.rect,
        },
    ]);
}

/// One node draws what it draws by itself.
pub proof fn law_single_node<T>(node: SvgNode<T>)
    ensures
        nodes_drawn(seq![node], 1) == node_drawn(node),
        nodes_drawn(Seq::<SvgNode<T>>::empty(), 0).len() == 0,
{
    reveal_with_fuel(nodes_drawn, 2);
    assert(nodes_drawn(seq![node], 1) =~= node_drawn(node));
}

/// What a draw command draws is what it holds.
pub proof fn law_command_draws_what_it_holds<T>(path: PathData<T>, image: ImageData<T>)
    ensures
        drawn(DrawCommand::Path(path)) matches Drawn::Path { segments, fill, stroke } && segments
            == path.segments@ && fill == path.fill && stroke == path.stroke,
        drawn(DrawCommand::Image(image)) matches Drawn::Image { rgba, px_width, px_height, rect }
            && rgba == image.rgba@ && px_width == image.px_width && px_height == image.px_height
            && rect == image.rect,
{
}

/// What stands between matches is kept, in its place, whatever the matches are replaced by; and
/// matches that are put back as they are give the text.
pub proof fn law_text_between_is_kept(between: Seq<Seq<char>>, subs: Seq<Seq<char>>, sub: Seq<char>)
    requires
        between.len() == subs.len() + 1,
    ensures
        forall|next: Seq<char>| #[trigger]
            interleaved(between.push(next), subs.push(sub)) == interleaved(between, subs) + sub + next,
        subs.len() == 0 ==> interleaved(between, subs) == between[0],
{
    assert forall|next: Seq<char>| #[trigger]
        interleaved(between.push(next), subs.push(sub)) == interleaved(between, subs) + sub + next by {
        assert(subs.push(sub).drop_last() =~= subs);
        lemma_interleaved_prefix(between, subs, next);
    }
}

proof fn lemma_interleaved_prefix(between: Seq<Seq<char>>, subs: Seq<Seq<char>>, next: Seq<char>)
    requires
        between.len() > subs.len(),
    ensures
        interleaved(between.push(next), subs) == interleaved(between, subs),
    decreases subs.len(),
{
    if subs.len() > 0 {
        lemma_interleaved_prefix(between, subs.drop_last(), next);
    }
}

/// A placed copy becomes a group with the same placement, that holds the copy with everything else
/// that was written on it, before and after the placement.
pub proof fn law_copy_keeps_what_is_written_on_it(
    whole: Seq<char>,
    before: Seq<char>,
    placement: Seq<char>,
    after: Seq<char>,
)
    ensures
        use_in_group(seq![whole, before, placement, after]) == "<g transform=\""@ + placement
            + "\">"@ + "<use"@ + before + after + "/>"@ + "</g>"@,
{
    reveal_strlit("\"><use");
    reveal_strlit("\">");
    reveal_strlit("<use");
    reveal_strlit("/></g>");
    reveal_strlit("/>");
    reveal_strlit("</g>");
    assert("\"><use"@ =~= "\">"@ + "<use"@);
    assert("/></g>"@ =~= "/>"@ + "</g>"@);
    assert(use_in_group(seq![whole, before, placement, after]) =~= "<g transform=\""@ + placement
        + "\">"@ + "<use"@ + before + after + "/>"@ + "</g>"@);
}

/// Text that is embedded as base64 is rewritten as text that stands alone is, and embedded again.
pub proof fn law_embedded_text_is_rewritten_alike(whole: Seq<char>, bytes: Seq<u8>, limit: nat)
    requires
        valid_utf8(bytes),
        bytes.len() < limit,
    ensures
        rewritten_image(seq![whole, encoding::base64_text(bytes)], limit)
            == "data:image/svg+xml;base64,"@ + encoding::base64_text(
            encode_utf8(rewritten(decode_utf8(bytes))),
        ),
{
    let code = encoding::base64_text(bytes);
    assert(encoding::base64_text(base64_bytes(code)) == code);
    encoding::law_base64_injective(bytes, base64_bytes(code));
}

/// Whether a path stands in a node: it is the path, or stands in a child of it, or in the document
/// that it shows.
pub open spec fn stands_in<T>(p: SvgPath<T>, node: SvgNode<T>) -> bool
    decreases node, 0nat,
{
    match node {
        SvgNode::Group(children) => stands_among(p, children@, children@.len()),
        SvgNode::Path(q) => q == p,
        SvgNode::Image(image) => match image.picture {
            SvgPicture::Nested(Some(nodes)) => stands_among(p, nodes@, nodes@.len()),
            _ => false,
        },
        SvgNode::Text => false,
    }
}

/// Whether a path stands in one of the first `n` nodes.
pub open spec fn stands_among<T>(p: SvgPath<T>, nodes: Seq<SvgNode<T>>, n: nat) -> bool
    decreases nodes, n,
{
    if n == 0 || n > nodes.len() {
        false
    } else {
        stands_among(p, nodes, (n - 1) as nat) || stands_in(p, nodes[n - 1])
    }
}

/// Whether a drawn path is of the path `p` of the document: it has its segments, or its dashes, and
/// where it is filled, the fill of `p` with its rule, and where it is stroked, the stroke of `p` with
/// its width.
pub open spec fn is_of<T>(d: Drawn<T>, p: SvgPath<T>) -> bool {
    &&& p.visible
    &&& outline(d) == p.segments@ || (p.dashes matches Some(dashes) && outline(d) == dashes@)
    &&& d matches Drawn::Path { fill, stroke, .. } && {
        &&& fill matches Some(f) ==> (p.fill matches Some(given) && f.rule == given.rule
            && f.color.a == given.alpha)
        &&& stroke matches Some(s) ==> (p.stroke matches Some(given) && s.width == given.width
            && s.color.a == given.alpha)
        &&& fill is Some || stroke is Some
    }
}

proof fn lemma_drawn_is_of<T>(p: SvgPath<T>, i: int)
    requires
        0 <= i < path_drawn(p).len(),
    ensures
        is_of(path_drawn(p)[i], p),
{
}

proof fn lemma_node_draws_its_paths<T>(node: SvgNode<T>, i: int) -> (p: SvgPath<T>)
    requires
        0 <= i < node_drawn(node).len(),
        node_drawn(node)[i] is Path,
    ensures
        stands_in(p, node),
        is_of(node_drawn(node)[i], p),
    decreases node, 0nat,
{
    match node {
        SvgNode::Group(children) => lemma_nodes_draw_their_paths(children@, children@.len(), i),
        SvgNode::Path(p) => {
            lemma_drawn_is_of(p, i);
            p
        },
        SvgNode::Image(image) => match image.picture {
            SvgPicture::Nested(Some(nodes)) => lemma_nodes_draw_their_paths(nodes@, nodes@.len(), i),
            _ => arbitrary(),
        },
        SvgNode::Text => arbitrary(),
    }
}

proof fn lemma_nodes_draw_their_paths<T>(nodes: Seq<SvgNode<T>>, n: nat, i: int) -> (p: SvgPath<T>)
    requires
        0 <= i < nodes_drawn(nodes, n).len(),
        nodes_drawn(nodes, n)[i] is Path,
    ensures
        stands_among(p, nodes, n),
        is_of(nodes_drawn(nodes, n)[i], p),
    decreases nodes, n,
{
    let before = nodes_drawn(nodes, (n - 1) as nat);
    if i < before.len() {
        lemma_nodes_draw_their_paths(nodes, (n - 1) as nat, i)
    } else {
        lemma_node_draws_its_paths(nodes[n - 1], i - before.len())
    }
}

/// Every path that is drawn is a path of the document, with its own fill, its own rule and its own
/// stroke, however deep it stands in groups and in documents that images show.
pub proof fn law_every_drawn_path_is_of_the_document<T>(nodes: Seq<SvgNode<T>>, i: int) -> (p: SvgPath<
    T,
>)
    requires
        0 <= i < nodes_drawn(nodes, nodes.len()).len(),
        nodes_drawn(nodes, nodes.len())[i] is Path,
    ensures
        stands_among(p, nodes, nodes.len()),
        is_of(nodes_drawn(nodes, nodes.len())[i], p),
{
    lemma_nodes_draw_their_paths(nodes, nodes.len(), i)
}

/// Embedded images are rewritten one by one, in their order; one that embeds no text, or one that is
/// too long, stays as it is.
pub proof fn law_images_are_rewritten_one_by_one(
    found: Seq<Seq<Seq<char>>>,
    image: Seq<Seq<char>>,
    limit: nat,
)
    ensures
        rewritten_images(found.push(image), limit) == rewritten_images(found, limit).push(
            rewritten_image(image, limit),
        ),
        rewritten_images(Seq::<Seq<Seq<char>>>::empty(), limit).len() == 0,
        image.len() > 1 && !embeds_text(image[1]) ==> rewritten_image(image, limit) == image[0],
        image.len() > 1 && base64_bytes(image[1]).len() >= limit ==> rewritten_image(image, limit)
            == image[0],
{
    assert(found.push(image).drop_last() =~= found);
}

/// What is handed to the parser: text is rewritten, and what is no text stays as it is.
pub proof fn law_only_text_is_prepared(data: Seq<u8>, svg: Seq<char>)
    ensures
        !valid_utf8(data) ==> parser_input(data) == data,
        parser_input(encode_utf8(svg)) == encode_utf8(rewritten(svg)),
{
    encode_utf8_valid_utf8(svg);
    encode_utf8_decode_utf8(svg);
}

/// How a text is rewritten: what stands between the copies that carry their placement stays, and each
/// of the copies becomes a group, where the text embeds no other. Which texts are such copies, and
/// which are embedded images, is told by the two expressions.
pub proof fn law_copies_become_groups(
    svg: Seq<char>,
    found: Seq<Seq<Seq<char>>>,
    between: Seq<Seq<char>>,
)
    requires
        regex_matches("data:image/svg\\+xml;base64,([A-Za-z0-9+/=]+)"@, svg) == Some(
            Seq::<Seq<Seq<char>>>::empty(),
        ),
        regex_between("data:image/svg\\+xml;base64,([A-Za-z0-9+/=]+)"@, svg) == Some(seq![svg]),
        regex_matches(
            "(?s)<use\\b([^>]*?)\\s+transform=\"([^\"]*)\"([^>]*?)\\s*/>"@,
            svg,
        ) == Some(found),
        regex_between(
            "(?s)<use\\b([^>]*?)\\s+transform=\"([^\"]*)\"([^>]*?)\\s*/>"@,
            svg,
        ) == Some(between),
    ensures
        rewritten(svg) == interleaved(
            between,
            found.map_values(|groups: Seq<Seq<char>>| use_in_group(groups)),
        ),
{
    reveal_with_fuel(rewritten_images, 1);
    assert(with_images_rewritten(svg) == svg);
}

/// How the embedded images of a text are rewritten: each in its place, and what stands between them
/// stays.
pub proof fn law_embedded_images_are_rewritten(
    svg: Seq<char>,
    found: Seq<Seq<Seq<char>>>,
    between: Seq<Seq<char>>,
)
    requires
        regex_matches("data:image/svg\\+xml;base64,([A-Za-z0-9+/=]+)"@, svg) == Some(found),
        regex_between("data:image/svg\\+xml;base64,([A-Za-z0-9+/=]+)"@, svg) == Some(between),
    ensures
        rewritten(svg) == with_uses_grouped(
            interleaved(between, rewritten_images(found, encode_utf8(svg).len())),
        ),
{
}

} // verus!
