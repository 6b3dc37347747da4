//! FED-GRAM: finding the image URLs of a public Instagram post in the HTML of
//! its page.

use vstd::prelude::*;
use vstd::string::*;
use scraper::{Html, Selector};
use crate::text::{chars_of, has_substring, str_contains, trim, trim_white};

verus! {

/// What `scraper` finds in a page: the document `html` parsed by
/// `Html::parse_document`, the elements matching the CSS selector `css`
/// in document order (`Html::select`), and for each of them the value of its
/// attribute `attr` (`ElementRef::attr`), `None` where it has none.
pub uninterp spec fn selected_attr_values(html: Seq<char>, css: Seq<char>, attr: Seq<char>) -> Seq<
    Option<Seq<char>>,
>;

/// Calls `scraper`: parses `html` with `Html::parse_document`, selects the
/// elements matching `css` with `Html::select`, and reads attribute `attr` of
/// each with `ElementRef::attr`. The contract claims that the values are
/// `selected_attr_values` of the arguments, and that their number (one per
/// matching element) does not depend on the attribute read. A selector that
/// does not parse selects nothing.
#[verifier::external_body]
fn select_attr_values(html: &str, css: &str, attr: &str) -> (r: Vec<Option<String>>)
    ensures
        r.deep_view() == selected_attr_values(html@, css@, attr@),
        forall|a: Seq<char>| (#[trigger] selected_attr_values(html@, css@, a)).len() == r@.len(),
{
    let document = Html::parse_document(html);
    let mut values = Vec::new();
    if let Ok(selector) = Selector::parse(css) {
        for element in document.select(&selector) {
            values.push(element.attr(attr).map(String::from));
        }
    }
    values
}

/// One image found in a post.
pub struct InstagramImage {
    pub url: String,
    pub width: Option<u32>,
    pub height: Option<u32>,
}

/// The answer to an extraction request.
pub struct FedGramResult {
    pub ok: bool,
    pub images: Vec<InstagramImage>,
    pub error: Option<String>,
}

/// The attributes of an `<img>` element that the extraction reads.
pub struct ImgAttributes {
    pub src: Option<String>,
    pub width: Option<String>,
    pub height: Option<String>,
}

/// An image as the contracts see it: its URL, width and height.
pub type ImageView = (Seq<char>, Option<u32>, Option<u32>);

/// The attributes of an `<img>` element as the contracts see them: `src`,
/// `width` and `height`.
pub type ImgView = (Option<Seq<char>>, Option<Seq<char>>, Option<Seq<char>>);

pub open spec fn image_view(img: InstagramImage) -> ImageView {
    (img.url@, img.width, img.height)
}

pub open spec fn images_view(images: Seq<InstagramImage>) -> Seq<ImageView> {
    images.map_values(|img: InstagramImage| image_view(img))
}

pub open spec fn img_view(a: ImgAttributes) -> ImgView {
    (a.src.deep_view(), a.width.deep_view(), a.height.deep_view())
}

pub open spec fn imgs_view(imgs: Seq<ImgAttributes>) -> Seq<ImgView> {
    imgs.map_values(|a: ImgAttributes| img_view(a))
}

pub open spec fn option_views(s: Seq<Option<String>>) -> Seq<Option<Seq<char>>> {
    s.map_values(|o: Option<String>| o.deep_view())
}

/// The value of a decimal numeral, digit by digit.
pub open spec fn digits_value(d: Seq<char>) -> int
    decreases d.len(),
{
    if d.len() == 0 {
        0
    } else {
        digits_value(d.drop_last()) * 10 + ((d.last() as u32) - ('0' as u32))
    }
}

/// An ASCII decimal digit.
pub open spec fn is_digit(c: char) -> bool {
    '0' as u32 <= c as u32 <= '9' as u32
}

/// The digits of a numeral: the text after an optional leading `+`.
pub open spec fn numeral_digits(s: Seq<char>) -> Seq<char> {
    if s.len() > 0 && s[0] == '+' {
        s.skip(1)
    } else {
        s
    }
}

/// Every character is an ASCII digit.
pub open spec fn all_digits(d: Seq<char>) -> bool {
    forall|i: int| 0 <= i < d.len() ==> is_digit(#[trigger] d[i])
}

/// What `str::parse::<u32>` accepts: an optional `+` and then a non-empty
/// run of ASCII digits whose value fits in a `u32`.
pub open spec fn decimal_u32(s: Seq<char>) -> Option<u32> {
    let d = numeral_digits(s);
    if d.len() > 0 && all_digits(d) && digits_value(d) <= u32::MAX {
        Some(digits_value(d) as u32)
    } else {
        None
    }
}

/// The value of a numeral only grows as digits are appended.
proof fn lemma_digits_value_grows(d: Seq<char>, k: int)
    requires
        0 <= k <= d.len(),
        all_digits(d),
    ensures
        digits_value(d.take(k)) <= digits_value(d),
        digits_value(d.take(k)) >= 0,
    decreases d.len(),
{
    if k == d.len() {
        assert(d.take(k) =~= d);
        lemma_digits_value_nonneg(d);
    } else {
        let front = d.drop_last();
        assert(front.take(k) =~= d.take(k));
        lemma_digits_value_grows(front, k);
        lemma_digits_value_nonneg(front);
    }
}

proof fn lemma_digits_value_nonneg(d: Seq<char>)
    requires
        all_digits(d),
    ensures
        digits_value(d) >= 0,
    decreases d.len(),
{
    if d.len() > 0 {
        let front = d.drop_last();
        assert forall|i: int| 0 <= i < front.len() implies is_digit(#[trigger] front[i]) by {
            assert(front[i] == d[i]);
        }
        lemma_digits_value_nonneg(front);
        assert(is_digit(d[d.len() - 1]));
    }
}

/// Parses a decimal `u32` as `s.parse::<u32>().ok()` does (see `decimal_u32`).
pub fn parse_u32(s: &str) -> (r: Option<u32>)
    ensures
        r == decimal_u32(s@),
{
    let v = chars_of(s);
    let n = v.len();
    let start: usize = if n > 0 && v[0] == '+' { 1 } else { 0 };
    let ghost d = numeral_digits(s@);
    assert(d =~= v@.skip(start as int));
    if start == n {
        return None;
    }
    let mut acc: u64 = 0;
    let mut i: usize = start;
    assert(d.take(0) =~= Seq::<char>::empty());
    while i < n
        invariant
            start <= i <= n,
            n == v@.len(),
            d == v@.skip(start as int),
            v@ == s@,
            d == numeral_digits(s@),
            forall|j: int| 0 <= j < i - start ==> is_digit(#[trigger] d[j]),
            acc == digits_value(d.take(i - start)),
            acc <= u32::MAX,
        decreases n - i,
    {
        let c = v[i];
        assert(d[i - start] == c);
        if !('0' as u32 <= c as u32 && c as u32 <= '9' as u32) {
            assert(!is_digit(d[i - start]));
            assert(!all_digits(d));
            return None;
        }
        let digit = (c as u32 - '0' as u32) as u64;
        let ghost k = i - start;
        assert(d.take(k + 1).drop_last() =~= d.take(k));
        assert(d.take(k + 1).last() == c);
        acc = acc * 10 + digit;
        assert(acc == digits_value(d.take(k + 1)));
        i = i + 1;
        if acc > 0xffff_ffff {
            proof {
                if all_digits(d) {
                    lemma_digits_value_grows(d, i - start);
                }
            }
            return None;
        }
    }
    assert(d.take(n - start) =~= d);
    Some(acc as u32)
}

/// Whether some image of `images` has URL `u`.
pub open spec fn url_listed(images: Seq<ImageView>, u: Seq<char>) -> bool {
    exists|i: int| 0 <= i < images.len() && (#[trigger] images[i]).0 == u
}

/// The images after the `og:image` contents, in document order: each
/// non-empty content not listed yet is added without dimensions.
pub open spec fn add_og_images(images: Seq<ImageView>, contents: Seq<Option<Seq<char>>>) -> Seq<
    ImageView,
>
    decreases contents.len(),
{
    if contents.len() == 0 {
        images
    } else {
        let prev = add_og_images(images, contents.drop_last());
        match contents.last() {
            Some(c) => if c.len() > 0 && !url_listed(prev, c) {
                prev.push((c, None, None))
            } else {
                prev
            },
            None => prev,
        }
    }
}

/// A URL on one of Instagram's image hosts.
pub open spec fn is_cdn_url(u: Seq<char>) -> bool {
    has_substring(u, "cdninstagram.com"@) || has_substring(u, "fbcdn.net"@)
}

/// A dimension attribute as a number, when it parses.
pub open spec fn dimension(a: Option<Seq<char>>) -> Option<u32> {
    match a {
        Some(t) => decimal_u32(t),
        None => None,
    }
}

/// The images after the `<img>` elements, in document order: each source on
/// an image host not listed yet is added with its parsed dimensions.
pub open spec fn add_cdn_images(images: Seq<ImageView>, imgs: Seq<ImgView>) -> Seq<ImageView>
    decreases imgs.len(),
{
    if imgs.len() == 0 {
        images
    } else {
        let prev = add_cdn_images(images, imgs.drop_last());
        let img = imgs.last();
        match img.0 {
            Some(u) => if is_cdn_url(u) && !url_listed(prev, u) {
                prev.push((u, dimension(img.1), dimension(img.2)))
            } else {
                prev
            },
            None => prev,
        }
    }
}

/// The contents of the page's `og:image` meta tags, in document order.
pub open spec fn og_image_contents(html: Seq<char>) -> Seq<Option<Seq<char>>> {
    selected_attr_values(html, "meta[property=\"og:image\"]"@, "content"@)
}

/// The `src`, `width` and `height` of the page's `<img>` elements that have a
/// source, in document order.
pub open spec fn img_attributes(html: Seq<char>) -> Seq<ImgView> {
    let srcs = selected_attr_values(html, "img[src]"@, "src"@);
    let widths = selected_attr_values(html, "img[src]"@, "width"@);
    let heights = selected_attr_values(html, "img[src]"@, "height"@);
    Seq::new(srcs.len(), |i: int| (srcs[i], widths[i], heights[i]))
}

/// The images of a post page: the non-empty `og:image` contents, then the
/// `<img>` sources on Instagram's image hosts, each URL once.
pub open spec fn page_images(html: Seq<char>) -> Seq<ImageView> {
    add_cdn_images(add_og_images(seq![], og_image_contents(html)), img_attributes(html))
}

proof fn lemma_images_view_push(images: Seq<InstagramImage>, img: InstagramImage)
    ensures
        images_view(images.push(img)) == images_view(images).push(image_view(img)),
{
    assert(images_view(images.push(img)) =~= images_view(images).push(image_view(img)));
}

/// Whether some image of `images` has URL `u`.
fn url_listed_exec(images: &Vec<InstagramImage>, u: &String) -> (r: bool)
    ensures
        r == url_listed(images_view(images@), u@),
{
    let n = images.len();
    for i in 0..n
        invariant
            n == images@.len(),
            forall|j: int| 0 <= j < i ==> (#[trigger] images@[j]).url@ != u@,
    {
        if images[i].url == *u {
            assert(images_view(images@)[i as int].0 == u@);
            return true;
        }
    }
    assert forall|j: int| 0 <= j < images_view(images@).len() implies (#[trigger] images_view(
        images@,
    )[j]).0 != u@ by {
        assert(images_view(images@)[j] == image_view(images@[j]));
    }
    false
}

fn dimension_exec(a: &Option<String>) -> (r: Option<u32>)
    ensures
        r == dimension(a.deep_view()),
{
    match a {
        Some(t) => parse_u32(t.as_str()),
        None => None,
    }
}

/// The images of a post: first the non-empty `og:image` contents, then the
/// sources of `<img>` elements on Instagram's image hosts, each URL once.
pub fn collect_images(contents: Vec<Option<String>>, imgs: Vec<ImgAttributes>) -> (images: Vec<
    InstagramImage,
>)
    ensures
        images_view(images@) == add_cdn_images(
            add_og_images(seq![], contents.deep_view()),
            imgs_view(imgs@),
        ),
{
    let ghost all_contents = contents@;
    let ghost all_imgs = imgs@;
    let mut images: Vec<InstagramImage> = Vec::new();
    assert(images_view(images@) =~= Seq::<ImageView>::empty());
    for c in it: contents
        invariant
            it.seq() == all_contents,
            images_view(images@) == add_og_images(
                seq![],
                option_views(it.seq().take(it.index() as int)),
            ),
    {
        let ghost k = it.index() as int;
        assert(option_views(it.seq().take(k + 1)).drop_last() =~= option_views(it.seq().take(k)));
        assert(option_views(it.seq().take(k + 1)).last() == c.deep_view());
        if let Some(u) = c {
            if !u.as_str().is_empty() && !url_listed_exec(&images, &u) {
                let ghost before = images@;
                let img = InstagramImage { url: u, width: None, height: None };
                proof {
                    lemma_images_view_push(before, img);
                }
                images.push(img);
            }
        }
    }
    assert(all_contents.take(all_contents.len() as int) =~= all_contents);
    assert(option_views(all_contents) =~= contents.deep_view());
    let ghost base = images_view(images@);
    for img in it: imgs
        invariant
            it.seq() == all_imgs,
            images_view(images@) == add_cdn_images(base, imgs_view(it.seq().take(it.index() as int))),
    {
        let ghost k = it.index() as int;
        assert(imgs_view(it.seq().take(k + 1)).drop_last() =~= imgs_view(it.seq().take(k)));
        assert(imgs_view(it.seq().take(k + 1)).last() == img_view(img));
        let width = dimension_exec(&img.width);
        let height = dimension_exec(&img.height);
        if let Some(u) = img.src {
            if (str_contains(u.as_str(), "cdninstagram.com") || str_contains(u.as_str(), "fbcdn.net"))
                && !url_listed_exec(&images, &u) {
                let ghost before = images@;
                let found = InstagramImage { url: u, width, height };
                proof {
                    lemma_images_view_push(before, found);
                }
                images.push(found);
            }
        }
    }
    assert(all_imgs.take(all_imgs.len() as int) =~= all_imgs);
    images
}

/// `images` with each image dropped whose URL equals that of the image kept
/// just before it, as `Vec::dedup_by` with equal URLs does.
pub open spec fn dedup_urls(images: Seq<ImageView>) -> Seq<ImageView>
    decreases images.len(),
{
    if images.len() == 0 {
        images
    } else {
        let prev = dedup_urls(images.drop_last());
        if prev.len() > 0 && prev.last().0 == images.last().0 {
            prev
        } else {
            prev.push(images.last())
        }
    }
}

/// No two images share a URL.
pub open spec fn distinct_urls(images: Seq<ImageView>) -> bool {
    forall|i: int, j: int|
        0 <= i < images.len() && 0 <= j < images.len() && i != j ==> (#[trigger] images[i]).0
            != (#[trigger] images[j]).0
}

/// Every image has a non-empty URL.
pub open spec fn nonempty_urls(images: Seq<ImageView>) -> bool {
    forall|i: int| 0 <= i < images.len() ==> (#[trigger] images[i]).0.len() > 0
}

/// Drops consecutive images with equal URLs (see `dedup_urls`).
fn dedup_by_url(images: Vec<InstagramImage>) -> (r: Vec<InstagramImage>)
    ensures
        images_view(r@) == dedup_urls(images_view(images@)),
{
    let ghost all = images@;
    let mut r: Vec<InstagramImage> = Vec::new();
    assert(images_view(r@) =~= Seq::<ImageView>::empty());
    assert(all.take(0) =~= Seq::<InstagramImage>::empty());
    assert(images_view(all.take(0)) =~= Seq::<ImageView>::empty());
    for img in it: images
        invariant
            it.seq() == all,
            images_view(r@) == dedup_urls(images_view(it.seq().take(it.index() as int))),
    {
        let ghost k = it.index() as int;
        assert(images_view(it.seq().take(k + 1)).drop_last() =~= images_view(it.seq().take(k)));
        assert(images_view(it.seq().take(k + 1)).last() == image_view(img));
        let n = r.len();
        if n > 0 {
            assert(images_view(r@).last() == image_view(r@[n - 1]));
        }
        if n == 0 || r[n - 1].url != img.url {
            let ghost before = r@;
            proof {
                lemma_images_view_push(before, img);
            }
            r.push(img);
        }
    }
    assert(all.take(all.len() as int) =~= all);
    r
}

/// Law: dropping consecutive duplicate URLs changes nothing when the URLs are
/// distinct.
pub proof fn lemma_dedup_of_distinct(images: Seq<ImageView>)
    requires
        distinct_urls(images),
    ensures
        dedup_urls(images) == images,
    decreases images.len(),
{
    if images.len() > 0 {
        let front = images.drop_last();
        assert forall|i: int, j: int|
            0 <= i < front.len() && 0 <= j < front.len() && i != j implies (#[trigger] front[i]).0
            != (#[trigger] front[j]).0 by {
            assert(front[i] == images[i] && front[j] == images[j]);
        }
        lemma_dedup_of_distinct(front);
        if front.len() > 0 {
            assert(front.last() == images[images.len() - 2]);
        }
        assert(front.push(images.last()) =~= images);
    }
}

/// Law: the collected images have distinct, non-empty URLs.
pub proof fn lemma_collected_images_are_sound(contents: Seq<Option<Seq<char>>>, imgs: Seq<ImgView>)
    ensures
        distinct_urls(add_cdn_images(add_og_images(seq![], contents), imgs)),
        nonempty_urls(add_cdn_images(add_og_images(seq![], contents), imgs)),
{
    lemma_og_images_sound(contents);
    lemma_cdn_images_sound(add_og_images(seq![], contents), imgs);
}

proof fn lemma_og_images_sound(contents: Seq<Option<Seq<char>>>)
    ensures
        distinct_urls(add_og_images(seq![], contents)),
        nonempty_urls(add_og_images(seq![], contents)),
    decreases contents.len(),
{
    if contents.len() > 0 {
        lemma_og_images_sound(contents.drop_last());
        let prev = add_og_images(seq![], contents.drop_last());
        if let Some(c) = contents.last() {
            if c.len() > 0 && !url_listed(prev, c) {
                lemma_push_new_url(prev, (c, None, None));
            }
        }
    }
}

proof fn lemma_cdn_images_sound(base: Seq<ImageView>, imgs: Seq<ImgView>)
    requires
        distinct_urls(base),
        nonempty_urls(base),
    ensures
        distinct_urls(add_cdn_images(base, imgs)),
        nonempty_urls(add_cdn_images(base, imgs)),
    decreases imgs.len(),
{
    if imgs.len() > 0 {
        lemma_cdn_images_sound(base, imgs.drop_last());
        let prev = add_cdn_images(base, imgs.drop_last());
        let img = imgs.last();
        if let Some(u) = img.0 {
            if is_cdn_url(u) && !url_listed(prev, u) {
                reveal_strlit("cdninstagram.com");
                reveal_strlit("fbcdn.net");
                assert(u.len() > 0);
                lemma_push_new_url(prev, (u, dimension(img.1), dimension(img.2)));
            }
        }
    }
}

proof fn lemma_push_new_url(prev: Seq<ImageView>, img: ImageView)
    requires
        distinct_urls(prev),
        nonempty_urls(prev),
        !url_listed(prev, img.0),
        img.0.len() > 0,
    ensures
        distinct_urls(prev.push(img)),
        nonempty_urls(prev.push(img)),
{
    let t = prev.push(img);
    assert forall|i: int, j: int|
        0 <= i < t.len() && 0 <= j < t.len() && i != j implies (#[trigger] t[i]).0
        != (#[trigger] t[j]).0 by {
        if i < prev.len() && j < prev.len() {
            assert(t[i] == prev[i] && t[j] == prev[j]);
        } else if i < prev.len() {
            assert(t[i] == prev[i]);
        } else {
            assert(t[j] == prev[j]);
        }
    }
    assert forall|i: int| 0 <= i < t.len() implies (#[trigger] t[i]).0.len() > 0 by {
        if i < prev.len() {
            assert(t[i] == prev[i]);
        }
    }
}

/// Law: every non-empty `og:image` content, and every `<img>` source that
/// contains `cdninstagram.com` or `fbcdn.net`, is among the collected images,
/// whatever the width and height attributes of the element.
pub proof fn lemma_collected_images_are_complete(contents: Seq<Option<Seq<char>>>, imgs: Seq<ImgView>)
    ensures
        forall|j: int|
            0 <= j < contents.len() && (#[trigger] contents[j]) is Some && contents[j]->0.len() > 0
                ==> url_listed(
                add_cdn_images(add_og_images(seq![], contents), imgs),
                contents[j]->0,
            ),
        forall|j: int|
            0 <= j < imgs.len() && (#[trigger] imgs[j]).0 is Some && (has_substring(
                imgs[j].0->0,
                "cdninstagram.com"@,
            ) || has_substring(imgs[j].0->0, "fbcdn.net"@)) ==> url_listed(
                add_cdn_images(add_og_images(seq![], contents), imgs),
                imgs[j].0->0,
            ),
{
    let base = add_og_images(seq![], contents);
    assert forall|j: int|
        0 <= j < contents.len() && (#[trigger] contents[j]) is Some && contents[j]->0.len()
            > 0 implies url_listed(add_cdn_images(base, imgs), contents[j]->0) by {
        lemma_og_content_listed(seq![], contents, j);
        lemma_cdn_keeps_listed(base, imgs, contents[j]->0);
    }
    assert forall|j: int|
        0 <= j < imgs.len() && (#[trigger] imgs[j]).0 is Some && (has_substring(
            imgs[j].0->0,
            "cdninstagram.com"@,
        ) || has_substring(imgs[j].0->0, "fbcdn.net"@)) implies url_listed(
        add_cdn_images(base, imgs),
        imgs[j].0->0,
    ) by {
        lemma_cdn_src_listed(base, imgs, j);
    }
}

proof fn lemma_push_keeps_listed(prev: Seq<ImageView>, img: ImageView, u: Seq<char>)
    requires
        url_listed(prev, u),
    ensures
        url_listed(prev.push(img), u),
{
    let i = choose|i: int| 0 <= i < prev.len() && (#[trigger] prev[i]).0 == u;
    assert(prev.push(img)[i] == prev[i]);
}

proof fn lemma_og_content_listed(base: Seq<ImageView>, contents: Seq<Option<Seq<char>>>, j: int)
    requires
        0 <= j < contents.len(),
        contents[j] is Some,
        contents[j]->0.len() > 0,
    ensures
        url_listed(add_og_images(base, contents), contents[j]->0),
    decreases contents.len(),
{
    let u = contents[j]->0;
    let front = contents.drop_last();
    let prev = add_og_images(base, front);
    if j < contents.len() - 1 {
        assert(front[j] == contents[j]);
        lemma_og_content_listed(base, front, j);
        if let Some(c) = contents.last() {
            if c.len() > 0 && !url_listed(prev, c) {
                lemma_push_keeps_listed(prev, (c, None, None), u);
            }
        }
    } else if !url_listed(prev, u) {
        let t = prev.push((u, None, None));
        assert(t[prev.len() as int].0 == u);
    }
}

proof fn lemma_cdn_keeps_listed(base: Seq<ImageView>, imgs: Seq<ImgView>, u: Seq<char>)
    requires
        url_listed(base, u),
    ensures
        url_listed(add_cdn_images(base, imgs), u),
    decreases imgs.len(),
{
    if imgs.len() > 0 {
        lemma_cdn_keeps_listed(base, imgs.drop_last(), u);
        let prev = add_cdn_images(base, imgs.drop_last());
        let img = imgs.last();
        if let Some(s) = img.0 {
            if is_cdn_url(s) && !url_listed(prev, s) {
                lemma_push_keeps_listed(prev, (s, dimension(img.1), dimension(img.2)), u);
            }
        }
    }
}

proof fn lemma_cdn_src_listed(base: Seq<ImageView>, imgs: Seq<ImgView>, j: int)
    requires
        0 <= j < imgs.len(),
        imgs[j].0 is Some,
        is_cdn_url(imgs[j].0->0),
    ensures
        url_listed(add_cdn_images(base, imgs), imgs[j].0->0),
    decreases imgs.len(),
{
    let u = imgs[j].0->0;
    let front = imgs.drop_last();
    let prev = add_cdn_images(base, front);
    let img = imgs.last();
    if j < imgs.len() - 1 {
        assert(front[j] == imgs[j]);
        lemma_cdn_src_listed(base, front, j);
        if let Some(s) = img.0 {
            if is_cdn_url(s) && !url_listed(prev, s) {
                lemma_push_keeps_listed(prev, (s, dimension(img.1), dimension(img.2)), u);
            }
        }
    } else if !url_listed(prev, u) {
        let t = prev.push((u, dimension(img.1), dimension(img.2)));
        assert(t[prev.len() as int].0 == u);
    }
}

/// Law: a page with a non-empty `og:image` content, or with an `<img>` source
/// that contains `cdninstagram.com` or `fbcdn.net`, has an image, so its
/// extraction succeeds (see `result_from_html`), whatever the width and height
/// attributes of its elements.
pub proof fn lemma_page_with_image_succeeds(html: Seq<char>)
    ensures
        (exists|j: int|
            0 <= j < og_image_contents(html).len() && (#[trigger] og_image_contents(html)[j]) is Some
                && og_image_contents(html)[j]->0.len() > 0) ==> page_images(html).len() > 0,
        (exists|j: int|
            0 <= j < img_attributes(html).len() && (#[trigger] img_attributes(html)[j]).0 is Some && (
            has_substring(img_attributes(html)[j].0->0, "cdninstagram.com"@) || has_substring(
                img_attributes(html)[j].0->0,
                "fbcdn.net"@,
            ))) ==> page_images(html).len() > 0,
{
    lemma_collected_images_are_complete(og_image_contents(html), img_attributes(html));
}

/// Law: the image for an `<img>` source on an image host carries the width
/// and height parsed from the first element with that source, when no
/// `og:image` content names it.
pub proof fn lemma_cdn_image_dimensions(
    contents: Seq<Option<Seq<char>>>,
    imgs: Seq<ImgView>,
    j: int,
    u: Seq<char>,
)
    requires
        0 <= j < imgs.len(),
        imgs[j].0 == Some(u),
        has_substring(u, "cdninstagram.com"@) || has_substring(u, "fbcdn.net"@),
        forall|k: int| 0 <= k < j ==> (#[trigger] imgs[k]).0 != Some(u),
        forall|k: int| 0 <= k < contents.len() ==> #[trigger] contents[k] != Some(u),
    ensures
        exists|i: int|
            0 <= i < add_cdn_images(add_og_images(seq![], contents), imgs).len() && #[trigger] add_cdn_images(
                add_og_images(seq![], contents),
                imgs,
            )[i] == (u, dimension(imgs[j].1), dimension(imgs[j].2)),
{
    if url_listed(add_og_images(seq![], contents), u) {
        lemma_og_listed_from(seq![], contents, u);
    }
    lemma_cdn_dims_at(add_og_images(seq![], contents), imgs, j, u);
}

proof fn lemma_og_listed_from(base: Seq<ImageView>, contents: Seq<Option<Seq<char>>>, u: Seq<char>)
    requires
        url_listed(add_og_images(base, contents), u),
    ensures
        url_listed(base, u) || exists|k: int| 0 <= k < contents.len() && #[trigger] contents[k] == Some(u),
    decreases contents.len(),
{
    if contents.len() > 0 {
        let front = contents.drop_last();
        let prev = add_og_images(base, front);
        if url_listed(prev, u) {
            lemma_og_listed_from(base, front, u);
            if !url_listed(base, u) {
                let k = choose|k: int| 0 <= k < front.len() && #[trigger] front[k] == Some(u);
                assert(contents[k] == front[k]);
            }
        } else {
            let r = add_og_images(base, contents);
            let i = choose|i: int| 0 <= i < r.len() && (#[trigger] r[i]).0 == u;
            if i < prev.len() {
                assert(r[i] == prev[i]);
            }
            assert(contents[contents.len() - 1] == Some(u));
        }
    }
}

proof fn lemma_cdn_listed_from(base: Seq<ImageView>, imgs: Seq<ImgView>, u: Seq<char>)
    requires
        url_listed(add_cdn_images(base, imgs), u),
    ensures
        url_listed(base, u) || exists|k: int| 0 <= k < imgs.len() && (#[trigger] imgs[k]).0 == Some(u),
    decreases imgs.len(),
{
    if imgs.len() > 0 {
        let front = imgs.drop_last();
        let prev = add_cdn_images(base, front);
        if url_listed(prev, u) {
            lemma_cdn_listed_from(base, front, u);
            if !url_listed(base, u) {
                let k = choose|k: int| 0 <= k < front.len() && (#[trigger] front[k]).0 == Some(u);
                assert(imgs[k] == front[k]);
            }
        } else {
            let r = add_cdn_images(base, imgs);
            let i = choose|i: int| 0 <= i < r.len() && (#[trigger] r[i]).0 == u;
            if i < prev.len() {
                assert(r[i] == prev[i]);
            }
            assert(imgs[imgs.len() - 1].0 == Some(u));
        }
    }
}

proof fn lemma_cdn_dims_at(base: Seq<ImageView>, imgs: Seq<ImgView>, j: int, u: Seq<char>)
    requires
        0 <= j < imgs.len(),
        imgs[j].0 == Some(u),
        is_cdn_url(u),
        forall|k: int| 0 <= k < j ==> (#[trigger] imgs[k]).0 != Some(u),
        !url_listed(base, u),
    ensures
        exists|i: int|
            0 <= i < add_cdn_images(base, imgs).len() && #[trigger] add_cdn_images(base, imgs)[i] == (
                u,
                dimension(imgs[j].1),
                dimension(imgs[j].2),
            ),
    decreases imgs.len(),
{
    let front = imgs.drop_last();
    let prev = add_cdn_images(base, front);
    let r = add_cdn_images(base, imgs);
    let want = (u, dimension(imgs[j].1), dimension(imgs[j].2));
    if j < imgs.len() - 1 {
        assert(front[j] == imgs[j]);
        assert forall|k: int| 0 <= k < j implies (#[trigger] front[k]).0 != Some(u) by {
            assert(front[k] == imgs[k]);
        }
        lemma_cdn_dims_at(base, front, j, u);
        let i = choose|i: int| 0 <= i < prev.len() && #[trigger] prev[i] == want;
        assert(r[i] == prev[i]);
    } else {
        if url_listed(prev, u) {
            lemma_cdn_listed_from(base, front, u);
            let k = choose|k: int| 0 <= k < front.len() && (#[trigger] front[k]).0 == Some(u);
            assert(imgs[k] == front[k]);
        }
        assert(r == prev.push(want));
        assert(r[prev.len() as int] == want);
    }
}

/// The message when a page holds no image.
pub open spec fn no_images_message() -> Seq<char> {
    "No images found. The post may be private or login-walled."@
}

/// The answer for a set of found images: success with the images (consecutive
/// duplicate URLs dropped) when there is one, else the no-image failure.
pub fn result_from_images(images: Vec<InstagramImage>) -> (r: FedGramResult)
    ensures
        r.ok == (images@.len() > 0),
        r.ok ==> images_view(r.images@) == dedup_urls(images_view(images@)) && r.error is None,
        !r.ok ==> r.images@.len() == 0 && r.error is Some && r.error->0@ == no_images_message(),
{
    if images.len() == 0 {
        failure(String::from_str("No images found. The post may be private or login-walled."))
    } else {
        let images = dedup_by_url(images);
        FedGramResult { ok: true, images, error: None }
    }
}

/// A failed answer with message `msg` and no images.
pub fn failure(msg: String) -> (r: FedGramResult)
    ensures
        !r.ok,
        r.images@.len() == 0,
        r.error == Some(msg),
{
    FedGramResult { ok: false, images: Vec::new(), error: Some(msg) }
}

/// The message for an empty post URL.
pub open spec fn no_url_message() -> Seq<char> {
    "No URL provided"@
}

/// The message for a URL that does not name Instagram.
pub open spec fn not_instagram_message() -> Seq<char> {
    "URL does not look like an Instagram post"@
}

/// Checks a post URL before it is fetched: the URL without surrounding white
/// space, or the failed answer for an empty URL or one that does not contain
/// `instagram.com`.
pub fn check_post_url(post_url: &str) -> (r: Result<String, FedGramResult>)
    ensures
        trim_white(post_url@).len() == 0 ==> r is Err && r->Err_0.error->0@ == no_url_message(),
        trim_white(post_url@).len() > 0 && !has_substring(trim_white(post_url@), "instagram.com"@)
            ==> r is Err && r->Err_0.error->0@ == not_instagram_message(),
        r is Err ==> !r->Err_0.ok && r->Err_0.images@.len() == 0 && r->Err_0.error is Some,
        trim_white(post_url@).len() > 0 && has_substring(trim_white(post_url@), "instagram.com"@)
            ==> r is Ok && r->Ok_0@ == trim_white(post_url@),
{
    let url = trim(post_url);
    if url.as_str().is_empty() {
        return Err(failure(String::from_str("No URL provided")));
    }
    if !str_contains(url.as_str(), "instagram.com") {
        return Err(failure(String::from_str("URL does not look like an Instagram post")));
    }
    Ok(url)
}

/// The failed answer for an unsuccessful HTTP status, given as displayed.
pub fn http_status_failure(status: &str) -> (r: FedGramResult)
    ensures
        !r.ok,
        r.images@.len() == 0,
        r.error is Some && r.error->0@ == "Instagram returned HTTP "@ + status@,
{
    failure(String::from_str("Instagram returned HTTP ").concat(status))
}

/// A copy of an optional string.
fn copy_option(o: &Option<String>) -> (r: Option<String>)
    ensures
        r == *o,
{
    match o {
        Some(s) => Some(s.clone()),
        None => None,
    }
}

/// The images of a post page (see `page_images`): the contents of its
/// `og:image` meta tags and the attributes of its `<img>` elements, as
/// `scraper` finds them, collected by `collect_images`. The URLs are distinct
/// and non-empty.
pub fn images_from_html(html: &str) -> (images: Vec<InstagramImage>)
    ensures
        images_view(images@) == page_images(html@),
        distinct_urls(images_view(images@)),
        nonempty_urls(images_view(images@)),
{
    let contents = select_attr_values(html, "meta[property=\"og:image\"]", "content");
    let img_css = "img[src]";
    let srcs = select_attr_values(html, img_css, "src");
    let widths = select_attr_values(html, img_css, "width");
    let heights = select_attr_values(html, img_css, "height");
    let n = srcs.len();
    proof {
        assert(selected_attr_values(html@, img_css@, "width"@).len() == n);
        assert(selected_attr_values(html@, img_css@, "height"@).len() == n);
    }
    let mut imgs: Vec<ImgAttributes> = Vec::new();
    for i in 0..n
        invariant
            n == srcs@.len(),
            n == widths@.len(),
            n == heights@.len(),
            imgs@.len() == i,
            forall|j: int|
                0 <= j < i ==> #[trigger] img_view(imgs@[j]) == (
                    srcs@[j].deep_view(),
                    widths@[j].deep_view(),
                    heights@[j].deep_view(),
                ),
    {
        imgs.push(
            ImgAttributes {
                src: copy_option(&srcs[i]),
                width: copy_option(&widths[i]),
                height: copy_option(&heights[i]),
            },
        );
    }
    proof {
        assert(imgs_view(imgs@) =~= img_attributes(html@)) by {
            assert forall|j: int| 0 <= j < n implies #[trigger] imgs_view(imgs@)[j] == img_attributes(
                html@,
            )[j] by {
                assert(imgs_view(imgs@)[j] == img_view(imgs@[j]));
                assert(srcs.deep_view()[j] == srcs@[j].deep_view());
                assert(widths.deep_view()[j] == widths@[j].deep_view());
                assert(heights.deep_view()[j] == heights@[j].deep_view());
            }
        }
        lemma_collected_images_are_sound(contents.deep_view(), imgs_view(imgs@));
    }
    collect_images(contents, imgs)
}

/// The answer for a fetched post page: success exactly when the page holds an
/// image (see `page_images`), with those images.
pub fn result_from_html(html: &str) -> (r: FedGramResult)
    ensures
        r.ok == (page_images(html@).len() > 0),
        r.ok ==> images_view(r.images@) == page_images(html@) && r.error is None,
        !r.ok ==> r.images@.len() == 0 && r.error is Some && r.error->0@ == no_images_message(),
        distinct_urls(images_view(r.images@)),
        forall|i: int| 0 <= i < r.images@.len() ==> (#[trigger] r.images@[i]).url@.len() > 0,
{
    let images = images_from_html(html);
    proof {
        lemma_dedup_of_distinct(images_view(images@));
    }
    let r = result_from_images(images);
    proof {
        assert forall|i: int| 0 <= i < r.images@.len() implies (#[trigger] r.images@[i]).url@.len()
            > 0 by {
            assert(images_view(r.images@)[i] == image_view(r.images@[i]));
        }
    }
    r
}

/// The name a downloaded image is saved under by default: the suggested name,
/// or `instagram_image.jpg` when none is suggested.
pub fn download_file_name(suggested: String) -> (r: String)
    ensures
        suggested@.len() == 0 ==> r@ == "instagram_image.jpg"@,
        suggested@.len() > 0 ==> r@ == suggested@,
{
    if suggested.as_str().is_empty() {
        String::from_str("instagram_image.jpg")
    } else {
        suggested
    }
}

} // verus!
