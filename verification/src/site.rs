//! The names under which a site is stored and listed: for each day a
//! directory, a file and a public address, and the manifest of all
//! addresses.

use crate::assignment::ShortcutAssignment;
use crate::calendar::CalendarDate;
use crate::date_text::lemma_date_text_names_one_date;
use crate::partition::is_resolution;
use crate::resolver::ClosestMapping;
use vstd::prelude::*;

verus! {

/// What `str::to_lowercase` makes of a text: its lower case as Unicode
/// defines it.
pub uninterp spec fn lowercase_text(text: Seq<char>) -> Seq<char>;

/// `str::to_lowercase`: the lower case of the text; the same text always
/// gives the same result.
#[verifier::external_body]
fn to_lowercase(text: &str) -> (lower: String)
    ensures
        lower@ == lowercase_text(text@),
{
    text.to_lowercase()
}

/// `String::push` adds one character at the end.
pub assume_specification[ String::push ](text: &mut String, ch: char)
    ensures
        final(text)@ == old(text)@.push(ch),
;

/// A text without its spaces.
pub open spec fn without_spaces_text(text: Seq<char>) -> Seq<char> {
    text.filter(|c: char| c != ' ')
}

/// The slug of a label: its lower case, without spaces.
pub open spec fn slug_text(label: Seq<char>) -> Seq<char> {
    without_spaces_text(lowercase_text(label))
}

/// The public address of the page of `date` on `host`.
pub open spec fn page_url_text(host: Seq<char>, date: CalendarDate) -> Seq<char> {
    "https://"@ + host + "/"@ + date.iso_text_spec() + "/"@
}

/// The directory of the page of `date` under `output_root`.
pub open spec fn page_dir_text(output_root: Seq<char>, date: CalendarDate) -> Seq<char> {
    output_root + "/"@ + date.iso_text_spec()
}

/// The file of the page of `date` under `output_root`.
pub open spec fn page_path_text(output_root: Seq<char>, date: CalendarDate) -> Seq<char> {
    page_dir_text(output_root, date) + "/index.html"@
}

/// The pages of different days have different directories, files and
/// addresses.
pub proof fn lemma_days_are_stored_apart(
    host: Seq<char>,
    output_root: Seq<char>,
    a: CalendarDate,
    b: CalendarDate,
)
    requires
        a.wf(),
        b.wf(),
        a != b,
    ensures
        page_dir_text(output_root, a) != page_dir_text(output_root, b),
        page_path_text(output_root, a) != page_path_text(output_root, b),
        page_url_text(host, a) != page_url_text(host, b),
{
    let text_a = a.iso_text_spec();
    let text_b = b.iso_text_spec();
    if text_a == text_b {
        lemma_date_text_names_one_date(a, b);
    }
    let dir_a = page_dir_text(output_root, a);
    let dir_b = page_dir_text(output_root, b);
    let before = (output_root + "/"@).len() as int;
    assert(text_a =~= dir_a.skip(before));
    assert(text_b =~= dir_b.skip(before));
    let path_a = page_path_text(output_root, a);
    let path_b = page_path_text(output_root, b);
    if path_a == path_b {
        assert(dir_a =~= path_a.take(dir_a.len() as int));
        assert(dir_b =~= path_b.take(dir_b.len() as int));
    }
    let url_a = page_url_text(host, a);
    let url_b = page_url_text(host, b);
    if url_a == url_b {
        let front = ("https://"@ + host + "/"@).len() as int;
        assert(url_a.len() == front + text_a.len() + "/"@.len());
        assert(url_b.len() == front + text_b.len() + "/"@.len());
        assert(text_a =~= url_a.subrange(front, front + text_a.len()));
        assert(text_b =~= url_b.subrange(front, front + text_b.len()));
    }
}

/// `text` without its spaces.
pub fn without_spaces(text: &str) -> (kept: String)
    ensures
        kept@ == without_spaces_text(text@),
{
    let mut kept = String::new();
    let length = text.unicode_len();
    let ghost pred = |c: char| c != ' ';
    let mut next: usize = 0;
    proof {
        reveal(Seq::filter);
        assert(text@.take(0) =~= Seq::<char>::empty());
    }
    while next < length
        invariant
            0 <= next <= length,
            length == text@.len(),
            pred == |c: char| c != ' ',
            kept@ == text@.take(next as int).filter(pred),
        decreases length - next,
    {
        let ch = text.get_char(next);
        proof {
            reveal(Seq::filter);
            assert(text@.take(next + 1).drop_last() =~= text@.take(next as int));
        }
        if ch != ' ' {
            kept.push(ch);
        }
        next = next + 1;
    }
    proof {
        assert(text@.take(next as int) =~= text@);
    }
    kept
}

/// The slug of a label: its lower case, without spaces.
pub fn label_slug(label: &str) -> (slug: String)
    ensures
        slug@ == slug_text(label@),
{
    let lower = to_lowercase(label);
    without_spaces(lower.as_str())
}

/// The public address of the page of `date` on `host`.
pub fn page_url(host: &str, date: &CalendarDate) -> (url: String)
    requires
        date.wf(),
    ensures
        url@ == page_url_text(host@, *date),
{
    let mut url = String::from_str("https://");
    url.append(host);
    url.append("/");
    url.append(date.iso_text().as_str());
    url.append("/");
    url
}

/// The directory of the page of `date` under `output_root`.
pub fn page_dir_name(output_root: &str, date: &CalendarDate) -> (dir_name: String)
    requires
        date.wf(),
    ensures
        dir_name@ == page_dir_text(output_root@, *date),
{
    let mut dir_name = String::from_str(output_root);
    dir_name.append("/");
    dir_name.append(date.iso_text().as_str());
    dir_name
}

/// The file of the page of `date` under `output_root`.
pub fn page_path(output_root: &str, date: &CalendarDate) -> (path: String)
    requires
        date.wf(),
    ensures
        path@ == page_path_text(output_root@, *date),
{
    let mut path = page_dir_name(output_root, date);
    path.append("/index.html");
    path
}

/// What is needed to render and store the page of one day.
#[derive(Debug)]
pub struct PagePlan {
    /// The day, as text.
    pub date: String,
    /// The label of the day's shortcut.
    pub closest: String,
    /// The slug of that label.
    pub slug: String,
    /// The directory to create.
    pub dir_name: String,
    /// The file to write.
    pub path: String,
    /// The public address of the page.
    pub url: String,
}

impl Clone for PagePlan {
    fn clone(&self) -> (copy: Self)
        ensures
            copy == *self,
    {
        PagePlan {
            date: self.date.clone(),
            closest: self.closest.clone(),
            slug: self.slug.clone(),
            dir_name: self.dir_name.clone(),
            path: self.path.clone(),
            url: self.url.clone(),
        }
    }
}

/// Whether `page` is the page of `mapping` on `host` under `output_root`.
pub open spec fn is_page_of(
    page: PagePlan,
    mapping: ClosestMapping,
    host: Seq<char>,
    output_root: Seq<char>,
) -> bool {
    &&& page.date@ == mapping.query_date.iso_text_spec()
    &&& page.closest@ == mapping.assignment.label@
    &&& page.slug@ == slug_text(mapping.assignment.label@)
    &&& page.dir_name@ == page_dir_text(output_root, mapping.query_date)
    &&& page.path@ == page_path_text(output_root, mapping.query_date)
    &&& page.url@ == page_url_text(host, mapping.query_date)
}

/// The page of one resolved day.
pub fn plan_page(host: &str, output_root: &str, mapping: &ClosestMapping) -> (page: PagePlan)
    requires
        mapping.query_date.wf(),
    ensures
        is_page_of(page, *mapping, host@, output_root@),
{
    PagePlan {
        date: mapping.query_date.iso_text(),
        closest: mapping.assignment.label.clone(),
        slug: label_slug(mapping.assignment.label.as_str()),
        dir_name: page_dir_name(output_root, &mapping.query_date),
        path: page_path(output_root, &mapping.query_date),
        url: page_url(host, &mapping.query_date),
    }
}

/// No two pages of the days from `start` to `max` share a directory, a file
/// or an address: every page is stored, and listed, on its own.
pub proof fn lemma_pages_are_stored_apart(
    pages: Seq<PagePlan>,
    mappings: Seq<ClosestMapping>,
    start: CalendarDate,
    max: CalendarDate,
    assignments: Seq<ShortcutAssignment>,
    host: Seq<char>,
    output_root: Seq<char>,
    i: int,
    j: int,
)
    requires
        is_resolution(mappings, start, max, assignments),
        pages.len() == mappings.len(),
        forall|k: int|
            0 <= k < pages.len() ==> is_page_of(#[trigger] pages[k], mappings[k], host, output_root),
        0 <= i < j < pages.len(),
    ensures
        pages[i].dir_name@ != pages[j].dir_name@,
        pages[i].path@ != pages[j].path@,
        pages[i].url@ != pages[j].url@,
{
    let a = mappings[i].query_date;
    let b = mappings[j].query_date;
    assert(a.day_number() != b.day_number());
    assert(is_page_of(pages[i], mappings[i], host, output_root));
    assert(is_page_of(pages[j], mappings[j], host, output_root));
    lemma_days_are_stored_apart(host, output_root, a, b);
}

/// The pages of all resolved days, in the order of the days.
pub fn plan_pages(host: &str, output_root: &str, mappings: &Vec<ClosestMapping>) -> (pages: Vec<
    PagePlan,
>)
    requires
        forall|i: int| 0 <= i < mappings.len() ==> (#[trigger] mappings[i]).query_date.wf(),
    ensures
        pages.len() == mappings.len(),
        forall|i: int|
            0 <= i < pages.len() ==> is_page_of(
                #[trigger] pages[i],
                mappings[i],
                host@,
                output_root@,
            ),
{
    let mut pages: Vec<PagePlan> = Vec::new();
    let mut next: usize = 0;
    while next < mappings.len()
        invariant
            0 <= next <= mappings.len(),
            pages.len() == next,
            forall|i: int| 0 <= i < mappings.len() ==> (#[trigger] mappings[i]).query_date.wf(),
            forall|i: int|
                0 <= i < pages.len() ==> is_page_of(
                    #[trigger] pages[i],
                    mappings[i],
                    host@,
                    output_root@,
                ),
        decreases mappings.len() - next,
    {
        pages.push(plan_page(host, output_root, &mappings[next]));
        next = next + 1;
    }
    pages
}

/// The public addresses of `pages`, in the order of the pages.
pub fn sitemap_urls(pages: &Vec<PagePlan>) -> (urls: Vec<String>)
    ensures
        urls.len() == pages.len(),
        forall|i: int| 0 <= i < urls.len() ==> (#[trigger] urls[i])@ == pages[i].url@,
{
    let mut urls: Vec<String> = Vec::new();
    let mut next: usize = 0;
    while next < pages.len()
        invariant
            0 <= next <= pages.len(),
            urls.len() == next,
            forall|i: int| 0 <= i < urls.len() ==> (#[trigger] urls[i])@ == pages[i].url@,
        decreases pages.len() - next,
    {
        urls.push(pages[next].url.clone());
        next = next + 1;
    }
    urls
}

/// The manifest of `urls`: each address on a line of its own, in order.
pub open spec fn manifest_text(urls: Seq<String>) -> Seq<char>
    decreases urls.len(),
{
    if urls.len() == 0 {
        Seq::empty()
    } else {
        manifest_text(urls.drop_last()) + urls.last()@ + "\n"@
    }
}

/// The text of the manifest: each address followed by a line end, in order.
pub fn sitemap_text(sitemap_urls: &Vec<String>) -> (text: String)
    ensures
        text@ == manifest_text(sitemap_urls@),
{
    let mut text = String::new();
    let mut next: usize = 0;
    proof {
        assert(sitemap_urls@.take(0) =~= Seq::<String>::empty());
    }
    while next < sitemap_urls.len()
        invariant
            0 <= next <= sitemap_urls.len(),
            text@ == manifest_text(sitemap_urls@.take(next as int)),
        decreases sitemap_urls.len() - next,
    {
        proof {
            assert(sitemap_urls@.take(next + 1).drop_last() =~= sitemap_urls@.take(next as int));
        }
        text.append(sitemap_urls[next].as_str());
        text.append("\n");
        next = next + 1;
    }
    proof {
        assert(sitemap_urls@.take(next as int) =~= sitemap_urls@);
    }
    text
}

} // verus!
