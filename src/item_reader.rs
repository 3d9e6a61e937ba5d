//! Splits text into white-space separated items, line by line, skipping
//! comment lines (those starting with `#`) and blank lines.
use vstd::prelude::*;

use crate::text::{
    chars_of, has_content, lines_of, nonempty, not_blank, split_white_space_runs, text_lines,
    views_of, words,
};

verus! {

#[derive(Debug)]
pub enum ItemReaderError {
    UnexpectedEof,
    Parse(String),
}

pub open spec fn is_comment(l: Seq<char>) -> bool {
    l.len() > 0 && l[0] == '#'
}

/// The items of one line.
pub open spec fn line_items(l: Seq<char>) -> Seq<Seq<char>> {
    if !is_comment(l) && has_content(l) {
        words(l)
    } else {
        seq![]
    }
}

/// The items of the lines `ls`, in order.
pub open spec fn items_of_lines(ls: Seq<Seq<char>>) -> Seq<Seq<char>>
    decreases ls.len(),
{
    if ls.len() == 0 {
        seq![]
    } else {
        line_items(ls[0]) + items_of_lines(ls.drop_first())
    }
}

/// The items of a text.
pub open spec fn items_of(text: Seq<char>) -> Seq<Seq<char>> {
    items_of_lines(text_lines(text))
}

/// A reader of the items of a text, line by line.
pub struct ItemReader {
    lines: Vec<String>,
    next_line: usize,
    buf: Vec<String>,
    buf_pos: usize,
}

impl ItemReader {
    pub closed spec fn wf(&self) -> bool {
        self.next_line <= self.lines@.len() && self.buf_pos <= self.buf@.len()
    }

    /// The items left on the line that was read last.
    pub closed spec fn line_rest(&self) -> Seq<Seq<char>> {
        nonempty(views_of(self.buf@).skip(self.buf_pos as int))
    }

    /// The items not read yet.
    pub closed spec fn stream(&self) -> Seq<Seq<char>> {
        self.line_rest() + items_of_lines(views_of(self.lines@).skip(self.next_line as int))
    }

    pub fn new(data: &str) -> (r: ItemReader)
        ensures
            r.wf(),
            r.stream() == items_of(data@),
            r.line_rest() == Seq::<Seq<char>>::empty(),
    {
        let lines = lines_of(data);
        let r = ItemReader { lines, next_line: 0, buf: Vec::new(), buf_pos: 0 };
        assert(views_of(r.buf@).skip(0) =~= Seq::<Seq<char>>::empty());
        assert(views_of(r.lines@).skip(0) =~= text_lines(data@));
        assert(r.stream() =~= items_of(data@));
        r
    }

    /// The next item of the line that was read last.
    fn probe(&mut self) -> (r: Option<String>)
        requires
            old(self).wf(),
        ensures
            final(self).wf(),
            final(self).lines@ == old(self).lines@,
            final(self).next_line == old(self).next_line,
            old(self).line_rest().len() == 0 ==> r is None && final(self).line_rest().len() == 0,
            old(self).line_rest().len() > 0 ==> r is Some && r->0@ == old(self).line_rest()[0]
                && final(self).line_rest() == old(self).line_rest().drop_first(),
    {
        while self.buf_pos < self.buf.len()
            invariant
                self.wf(),
                self.lines@ == old(self).lines@,
                self.next_line == old(self).next_line,
                self.line_rest() == old(self).line_rest(),
            decreases self.buf@.len() - self.buf_pos,
        {
            let ghost ps = views_of(self.buf@).skip(self.buf_pos as int);
            assert(ps.drop_first() =~= views_of(self.buf@).skip(self.buf_pos + 1));
            let i = self.buf_pos;
            self.buf_pos = i + 1;
            assert(ps[0] == self.buf@[i as int]@);
            if !self.buf[i].as_str().is_empty() {
                return Some(self.buf[i].clone());
            }
        }
        assert(views_of(self.buf@).skip(self.buf_pos as int) =~= Seq::<Seq<char>>::empty());
        None
    }

    fn next_item(&mut self, ignore_newline: bool) -> (r: Option<String>)
        requires
            old(self).wf(),
        ensures
            final(self).wf(),
            ignore_newline ==> (old(self).stream().len() == 0 ==> r is None && final(self).stream()
                == old(self).stream())
                && (old(self).stream().len() > 0 ==> r is Some && r->0@ == old(
                self,
            ).stream()[0] && final(self).stream() == old(self).stream().drop_first()),
            !ignore_newline ==> (old(self).line_rest().len() == 0 ==> r is None
                && final(self).stream() == old(self).stream() && final(self).line_rest().len()
                == 0) && (old(self).line_rest().len() > 0 ==> r is Some && r->0@ == old(
                self,
            ).line_rest()[0] && final(self).stream() == old(self).stream().drop_first()
                && final(self).line_rest() == old(self).line_rest().drop_first()),
    {
        let r = self.probe();
        if r.is_some() || !ignore_newline {
            return r;
        }
        while self.next_line < self.lines.len()
            invariant
                self.wf(),
                ignore_newline,
                self.line_rest().len() == 0,
                self.stream() == old(self).stream(),
            decreases self.lines@.len() - self.next_line,
        {
            let ghost rest = views_of(self.lines@).skip(self.next_line as int);
            assert(rest.drop_first() =~= views_of(self.lines@).skip(self.next_line + 1));
            let i = self.next_line;
            self.next_line = i + 1;
            let chars = chars_of(self.lines[i].as_str());
            assert(chars@ == rest[0]);
            if !(chars.len() > 0 && chars[0] == '#') && not_blank(&chars) {
                self.buf = split_white_space_runs(self.lines[i].as_str());
                self.buf_pos = 0;
                assert(views_of(self.buf@).skip(0) =~= views_of(self.buf@));
                let r = self.probe();
                if r.is_some() {
                    return r;
                }
            }
        }
        assert(views_of(self.lines@).skip(self.next_line as int) =~= Seq::<Seq<char>>::empty());
        None
    }

    /// The next item, from whichever line holds it.
    pub fn next(&mut self) -> (r: Option<String>)
        requires
            old(self).wf(),
        ensures
            final(self).wf(),
            old(self).stream().len() == 0 ==> r is None && final(self).stream() == old(self).stream(),
            old(self).stream().len() > 0 ==> r is Some && r->0@ == old(self).stream()[0]
                && final(self).stream() == old(self).stream().drop_first(),
    {
        self.next_item(true)
    }

    /// The next item, or an error at the end of the text.
    pub fn next_result(&mut self) -> (r: Result<String, ItemReaderError>)
        requires
            old(self).wf(),
        ensures
            final(self).wf(),
            old(self).stream().len() == 0 ==> r is Err && final(self).stream() == old(self).stream(),
            old(self).stream().len() > 0 ==> r is Ok && r->Ok_0@ == old(self).stream()[0]
                && final(self).stream() == old(self).stream().drop_first(),
    {
        match self.next() {
            Some(item) => Ok(item),
            None => Err(ItemReaderError::UnexpectedEof),
        }
    }

    /// The next item of the line that was read last; `None` at the end of
    /// that line.
    pub fn next_until_eol(&mut self) -> (r: Option<String>)
        requires
            old(self).wf(),
        ensures
            final(self).wf(),
            old(self).line_rest().len() == 0 ==> r is None && final(self).stream() == old(
                self,
            ).stream(),
            old(self).line_rest().len() > 0 ==> r is Some && r->0@ == old(self).line_rest()[0]
                && final(self).stream() == old(self).stream().drop_first()
                && final(self).line_rest() == old(self).line_rest().drop_first(),
    {
        self.next_item(false)
    }
}

} // verus!
