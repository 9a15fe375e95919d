//! Several source files scanned as a stack, for include directives: each
//! file name is loaded once, and the most recently loaded file is scanned
//! first.
use vstd::prelude::*;
use vstd::string::StringSliceAdditionalSpecFns;
use crate::lexer::{TokenIterator, TokenResult, agrees, tokenize};
use crate::scan::scan_at;

verus! {

/// A stack of tokenizers, one per loaded source file, that loads each file
/// name at most once. Reading the files is the caller's part: it hands over
/// their text.
#[derive(Debug)]
pub struct RecursiveTokenizer {
    names: Vec<String>,
    stack: Vec<TokenIterator>,
}

impl RecursiveTokenizer {
    /// No file name is loaded twice.
    pub closed spec fn wf(&self) -> bool {
        self.names@.map_values(|n: String| n@).no_duplicates()
    }

    /// The names of the files loaded so far, in order of loading.
    pub closed spec fn loaded(&self) -> Seq<Seq<char>> {
        self.names@.map_values(|n: String| n@)
    }

    /// The tokenizers, the most recently loaded last.
    pub closed spec fn scanners(&self) -> Seq<TokenIterator> {
        self.stack@
    }

    /// A stack with no file loaded.
    pub fn get_empty() -> (r: RecursiveTokenizer)
        ensures
            r.wf(),
            r.loaded() == Seq::<Seq<char>>::empty(),
            r.scanners() == Seq::<TokenIterator>::empty(),
    {
        let r = RecursiveTokenizer { names: Vec::new(), stack: Vec::new() };
        assert(r.names@.map_values(|n: String| n@) =~= Seq::<Seq<char>>::empty());
        r
    }

    /// A stack that holds the tokenizer of one file, `filename`, whose text is `code`.
    pub fn new(filename: &str, code: &str) -> (r: RecursiveTokenizer)
        ensures
            r.wf(),
            r.loaded() == seq![filename@],
            r.scanners().len() == 1,
            r.scanners()[0].source() == code.spec_bytes(),
            r.scanners()[0].file() == filename@,
            r.scanners()[0].position() == 0,
    {
        let mut rtok = RecursiveTokenizer::get_empty();
        rtok.load(filename, code);
        rtok
    }

    /// Whether `filename` has been loaded.
    pub fn is_loaded(&self, filename: &str) -> (r: bool)
        ensures
            r == self.loaded().contains(filename@),
    {
        let name = filename.to_owned();
        let mut i: usize = 0;
        while i < self.names.len()
            invariant
                0 <= i <= self.names@.len(),
                name@ == filename@,
                forall|j: int| 0 <= j < i ==> self.names@[j]@ != filename@,
            decreases self.names@.len() - i,
        {
            if self.names[i].eq(&name) {
                assert(self.loaded()[i as int] == filename@);
                return true;
            }
            i += 1;
        }
        assert(!self.loaded().contains(filename@)) by {
            if self.loaded().contains(filename@) {
                let j = choose|j: int| 0 <= j < self.loaded().len() && self.loaded()[j] == filename@;
                assert(self.names@[j]@ == filename@);
            }
        }
        false
    }

    /// Loads `code` as the text of `filename`, unless that name is loaded
    /// already; returns whether it was loaded now. A new file's tokenizer
    /// goes on top of the stack.
    pub fn load(&mut self, filename: &str, code: &str) -> (r: bool)
        requires
            old(self).wf(),
        ensures
            final(self).wf(),
            r == !old(self).loaded().contains(filename@),
            !r ==> final(self).loaded() == old(self).loaded() && final(self).scanners() == old(
                self,
            ).scanners(),
            r ==> final(self).loaded() == old(self).loaded().push(filename@),
            r ==> final(self).scanners().len() == old(self).scanners().len() + 1,
            r ==> final(self).scanners().drop_last() == old(self).scanners(),
            r ==> final(self).scanners().last().source() == code.spec_bytes(),
            r ==> final(self).scanners().last().file() == filename@,
            r ==> final(self).scanners().last().position() == 0,
    {
        if self.is_loaded(filename) {
            return false;
        }
        let ghost before = self.names@;
        self.names.push(filename.to_owned());
        assert(self.names@.map_values(|n: String| n@) =~= before.map_values(|n: String| n@).push(
            filename@,
        ));
        self.stack.push(tokenize(code, filename));
        assert(self.stack@.drop_last() =~= old(self).stack@);
        true
    }

    /// The next result of the most recently loaded file that still has
    /// lexemes; tokenizers that are done are dropped from the stack.
    pub fn next(&mut self) -> (r: Option<TokenResult>)
        requires
            old(self).wf(),
        ensures
            final(self).wf(),
            final(self).loaded() == old(self).loaded(),
            final(self).scanners().len() <= old(self).scanners().len(),
            forall|j: int|
                final(self).scanners().len() <= j < old(self).scanners().len() ==> scan_at(
                    (#[trigger] old(self).scanners()[j]).source(),
                    old(self).scanners()[j].position(),
                ) is None,
            r is None ==> final(self).scanners().len() == 0,
            r matches Some(res) ==> {
                let k = final(self).scanners().len() - 1;
                let t = old(self).scanners()[k];
                &&& k >= 0
                &&& final(self).scanners().drop_last() == old(self).scanners().subrange(0, k)
                &&& scan_at(t.source(), t.position()) matches Some(s) && agrees(res, s, t.file())
                    && final(self).scanners()[k].position() == s.next
                &&& final(self).scanners()[k].source() == t.source()
                &&& final(self).scanners()[k].file() == t.file()
            },
    {
        loop
            invariant
                self.wf(),
                self.names@ == old(self).names@,
                self.stack@.len() <= old(self).stack@.len(),
                self.stack@ == old(self).stack@.subrange(0, self.stack@.len() as int),
                forall|j: int|
                    self.stack@.len() <= j < old(self).stack@.len() ==> scan_at(
                        (#[trigger] old(self).stack@[j]).source(),
                        old(self).stack@[j].position(),
                    ) is None,
            decreases self.stack@.len(),
        {
            let ghost k = self.stack@.len() - 1;
            match self.stack.pop() {
                None => {
                    return None;
                },
                Some(mut top) => {
                    match top.next() {
                        Some(res) => {
                            self.stack.push(top);
                            assert(self.stack@.drop_last() =~= old(self).stack@.subrange(0, k));
                            return Some(res);
                        },
                        None => {},
                    }
                },
            }
        }
    }
}


} // verus!
