//! The table of contents.
use crate::label;
use vstd::prelude::*;
use vstd::string::*;

verus! {

/// An entry of a document's outline as it was read.
#[derive(Debug)]
pub struct TocEntry {
    pub level: usize,
    pub title: String,
    pub page: usize,
}

/// A chapter of the table of contents.
#[derive(Debug)]
pub struct Chapter {
    /// How deep the chapter is nested, counted from one.
    pub level: usize,
    pub title: String,
    /// The page that the chapter starts on, counted from one.
    pub page: usize,
}

/// A chapter as a mathematical value.
#[verifier::ext_equal]
pub struct ChapterView {
    pub level: nat,
    pub title: Seq<char>,
    pub page: nat,
}

impl View for TocEntry {
    type V = ChapterView;

    open spec fn view(&self) -> ChapterView {
        ChapterView { level: self.level as nat, title: self.title@, page: self.page as nat }
    }
}

impl View for Chapter {
    type V = ChapterView;

    open spec fn view(&self) -> ChapterView {
        ChapterView { level: self.level as nat, title: self.title@, page: self.page as nat }
    }
}

/// The chapters as mathematical values.
pub open spec fn chapters(toc: Seq<Chapter>) -> Seq<ChapterView> {
    Seq::new(toc.len(), |i: int| toc[i]@)
}

/// The table of contents that an outline gives: a document without a readable
/// outline has an empty one.
pub open spec fn contents(outline: Option<Vec<TocEntry>>) -> Seq<ChapterView> {
    match outline {
        Some(entries) => Seq::new(entries@.len(), |i: int| entries@[i]@),
        None => Seq::empty(),
    }
}

/// `n` times four spaces.
pub open spec fn indent(n: nat) -> Seq<char> {
    Seq::new(4 * n, |i: int| ' ')
}

/// The line of the chapter menu: the title, indented by its depth below the
/// first level.
pub open spec fn menu_line(chapter: ChapterView) -> Seq<char> {
    indent(if chapter.level > 0 { (chapter.level - 1) as nat } else { 0 }) + chapter.title
}

/// The table of contents that an outline gives.
pub fn load_toc(outline: Option<Vec<TocEntry>>) -> (toc: Vec<Chapter>)
    ensures
        chapters(toc@) == contents(outline),
{
    let mut toc: Vec<Chapter> = Vec::new();
    if let Some(entries) = outline {
        let mut i: usize = 0;
        while i < entries.len()
            invariant
                i <= entries.len(),
                toc.len() == i,
                forall|j: int| 0 <= j < i ==> (#[trigger] toc@[j])@ == entries@[j]@,
            decreases entries.len() - i,
        {
            let e = &entries[i];
            toc.push(Chapter { level: e.level, title: e.title.clone(), page: e.page });
            i = i + 1;
        }
        assert(chapters(toc@) =~= contents(Some(entries)));
    } else {
        assert(chapters(toc@) =~= Seq::<ChapterView>::empty());
    }
    toc
}

/// The line of the chapter menu.
pub fn chapter_label(chapter: &Chapter) -> (s: String)
    ensures
        s@ == menu_line(chapter@),
{
    let mut s = String::new();
    let depth: usize = if chapter.level > 0 {
        chapter.level - 1
    } else {
        0
    };
    let mut i: usize = 0;
    assert(s@ =~= indent(0));
    while i < depth
        invariant
            i <= depth,
            s@ == indent(i as nat),
        decreases depth - i,
    {
        s.push(' ');
        s.push(' ');
        s.push(' ');
        s.push(' ');
        assert(s@ =~= indent((i + 1) as nat));
        i = i + 1;
    }
    label::join(s.as_str(), chapter.title.as_str())
}

/// Every entry of an outline, however many there are, becomes the chapter at
/// its place, with its level, its title and its page; no outline, no chapters.
pub proof fn every_entry_becomes_a_chapter(outline: Option<Vec<TocEntry>>)
    ensures
        outline matches Some(entries) ==> {
            &&& contents(outline).len() == entries@.len()
            &&& forall|i: int|
                #![trigger entries@[i]]
                #![trigger contents(outline)[i]]
                0 <= i < entries@.len() ==> {
                    &&& contents(outline)[i].level == entries@[i].level
                    &&& contents(outline)[i].title == entries@[i].title@
                    &&& contents(outline)[i].page == entries@[i].page
                }
        },
        outline is None ==> contents(outline).len() == 0,
{
}

/// A table of contents is seen as it is: chapter by chapter, with its level, its
/// title and its page.
pub proof fn every_chapter_is_seen(toc: Seq<Chapter>)
    ensures
        chapters(toc).len() == toc.len(),
        forall|i: int|
            #![trigger toc[i]]
            #![trigger chapters(toc)[i]]
            0 <= i < toc.len() ==> {
                &&& chapters(toc)[i].level == toc[i].level
                &&& chapters(toc)[i].title == toc[i].title@
                &&& chapters(toc)[i].page == toc[i].page
            },
{
}

/// A line of the menu is four blanks for each level below the first one, and
/// then the whole title.
pub proof fn a_menu_line_is_indented_by_its_level(chapter: ChapterView)
    ensures
        ({
            let blanks = if chapter.level <= 1 {
                0
            } else {
                4 * (chapter.level - 1)
            };
            let line = menu_line(chapter);
            &&& line.len() == blanks + chapter.title.len()
            &&& forall|i: int| 0 <= i < blanks ==> #[trigger] line[i] == ' '
            &&& line.skip(blanks) == chapter.title
        }),
{
    let blanks = if chapter.level <= 1 {
        0
    } else {
        4 * (chapter.level - 1)
    };
    assert(menu_line(chapter).skip(blanks) =~= chapter.title);
}

} // verus!
