//! The snippet entity: one recorded piece of code with its metadata,
//! the constructor that splits the tags string, and the pure query
//! functions over snippets and collections of snippets.

use vstd::prelude::*;
use crate::time::{Timestamp, DateError, spec_parse_ymd, parse_date};
use crate::text::{split_tags, split_ws, str_views, all_words_wf, lemma_split_ws_wf, ascii_lower, to_ascii_lowercase};
use crate::lang::LanguageTable;

verus! {

/// The mathematical model of a snippet: every field as a plain value.
#[verifier::ext_equal]
pub struct SnippetModel {
    pub index: int,
    pub description: Seq<char>,
    pub language: Seq<char>,
    pub code: Seq<char>,
    pub extension: Seq<char>,
    pub tags: Seq<Seq<char>>,
    pub date: Timestamp,
    pub updated: Timestamp,
}

impl SnippetModel {
    /// Well-formedness: the index fits the store's key type, every tag
    /// is a non-empty whitespace-free word, both timestamps carry a
    /// valid subsecond count, and the creation time never follows the
    /// last update.
    pub open spec fn wf(self) -> bool {
        0 <= self.index <= usize::MAX && all_words_wf(self.tags) && self.date.wf()
            && self.updated.wf() && self.date.spec_le(self.updated)
    }
}

/// One recorded piece of code plus its metadata.
#[derive(Debug)]
pub struct Snippet {
    /// Snippet index, used to retrieve, copy, or modify a snippet.
    pub index: usize,
    /// Snippet description: what does it do?
    pub description: String,
    /// Language the snippet is written in.
    pub language: String,
    /// Snippet code.
    pub code: String,
    /// Display extension, always derived from the language.
    pub extension: String,
    /// Tags attached to the snippet.
    pub tags: Vec<String>,
    /// Time of recording the snippet.
    pub date: Timestamp,
    /// Time of last update.
    pub updated: Timestamp,
}

impl View for Snippet {
    type V = SnippetModel;

    open spec fn view(&self) -> SnippetModel {
        SnippetModel {
            index: self.index as int,
            description: self.description@,
            language: self.language@,
            code: self.code@,
            extension: self.extension@,
            tags: str_views(self.tags@),
            date: self.date,
            updated: self.updated,
        }
    }
}

impl Snippet {
    /// The predicate `filter_in_date_range` filters by, on one model.
    pub open spec fn spec_in_range(m: SnippetModel, from: Timestamp, to: Timestamp) -> bool {
        from.spec_le(m.date) && m.date.spec_lt(to)
    }

    /// The same predicate, as a function value for `Seq::filter`.
    pub open spec fn in_range_pred(from: Timestamp, to: Timestamp) -> spec_fn(SnippetModel) -> bool {
        |m: SnippetModel| Snippet::spec_in_range(m, from, to)
    }

    /// Builds a snippet, splitting the whitespace-delimited tags string
    /// into the tag sequence. Never fails: empty code and empty tags
    /// are accepted as they stand. The caller supplies timestamps that
    /// respect the record's invariant (the creation time never follows
    /// the last update), as the collection flow in `from_fields` does.
    pub fn new(
        index: usize,
        description: String,
        language: String,
        extension: String,
        tags: &str,
        date: Timestamp,
        updated: Timestamp,
        code: String,
    ) -> (r: Snippet)
        requires
            date.wf(),
            updated.wf(),
            date.spec_le(updated),
        ensures
            r@ == (SnippetModel {
                index: index as int,
                description: description@,
                language: language@,
                code: code@,
                extension: extension@,
                tags: split_ws(tags@),
                date,
                updated,
            }),
            r@.wf(),
    {
        let tag_list = split_tags(tags);
        proof {
            lemma_split_ws_wf(tags@);
        }
        Snippet { index, description, language, code, extension, tags: tag_list, date, updated }
    }


    /// Builds a snippet from collected raw field values, as the
    /// interactive edit flow does: normalizes the language to ASCII
    /// lowercase, derives the extension through the table, splits the
    /// tags string, takes an explicitly supplied `YYYY-MM-DD` date (or
    /// `now` when none is given), and stamps `updated` so the creation
    /// time never follows it.
    pub fn from_fields(
        index: usize,
        description: String,
        language_raw: &str,
        languages: &LanguageTable,
        tags: &str,
        date_input: Option<&str>,
        now: Timestamp,
        code: String,
    ) -> (r: Result<Snippet, DateError>)
        requires
            now.wf(),
        ensures
            match r {
                Ok(s) => {
                    &&& s@.index == index as int
                    &&& s@.description == description@
                    &&& s@.language == ascii_lower(language_raw@)
                    &&& s@.extension == languages.spec_extension_of(ascii_lower(language_raw@))
                    &&& s@.tags == split_ws(tags@)
                    &&& s@.code == code@
                    &&& match date_input {
                        Some(d) => spec_parse_ymd(d@) == Some(s@.date.secs) && s@.date.nanos == 0,
                        None => s@.date == now,
                    }
                    &&& s@.updated == (if now.spec_lt(s@.date) {
                        s@.date
                    } else {
                        now
                    })
                    &&& s@.wf()
                },
                Err(e) => e == DateError::InvalidDate && match date_input {
                    Some(d) => spec_parse_ymd(d@).is_none(),
                    None => false,
                },
            },
    {
        let language = to_ascii_lowercase(language_raw);
        let (extension, _known) = languages.get_extension(language.as_str());
        let date = match date_input {
            Some(d) => match parse_date(d) {
                Ok(t) => t,
                Err(e) => {
                    return Err(e);
                },
            },
            None => now,
        };
        let updated = if now.lt(&date) {
            date
        } else {
            now
        };
        Ok(Self::new(index, description, language, extension, tags, date, updated, code))
    }

    /// Recomputes the derived extension from a language name through
    /// the table; no caller sets the extension directly.
    pub fn set_extension(&mut self, language_name: &str, languages: &LanguageTable)
        ensures
            final(self).extension@ == languages.spec_extension_of(language_name@),
            *final(self) == (Snippet { extension: final(self).extension, ..*old(self) }),
    {
        let (ext, _known) = languages.get_extension(language_name);
        self.extension = ext;
    }

    /// Whether this snippet was recorded in the half-open range
    /// `[from, to)`.
    pub fn in_date_range(&self, from_date: Timestamp, to_date: Timestamp) -> (r: bool)
        ensures
            r == Self::spec_in_range(self@, from_date, to_date),
    {
        from_date.le(&self.date) && self.date.lt(&to_date)
    }

    /// Whether `tag` is an exact, case-sensitive member of this
    /// snippet's tags.
    pub fn has_tag(&self, tag: &str) -> (r: bool)
        ensures
            r == self@.tags.contains(tag@),
    {
        let key: String = tag.to_owned();
        let mut i: usize = 0;
        while i < self.tags.len()
            invariant
                i <= self.tags@.len(),
                key@ == tag@,
                forall|j: int| 0 <= j < i ==> (#[trigger] self.tags@[j])@ != tag@,
            decreases self.tags@.len() - i,
        {
            if self.tags[i] == key {
                proof {
                    assert(str_views(self.tags@)[i as int] == tag@);
                }
                return true;
            }
            i = i + 1;
        }
        proof {
            assert forall|k: int| 0 <= k < self@.tags.len() implies self@.tags[k] != tag@ by {
                assert(str_views(self.tags@)[k] == self.tags@[k]@);
            }
        }
        false
    }

    /// Keeps exactly the snippets recorded in `[from_date, to_date)`,
    /// in their original order.
    pub fn filter_in_date_range(snippets: Vec<Snippet>, from_date: Timestamp, to_date: Timestamp) -> (r:
        Vec<Snippet>)
        ensures
            r@.map_values(|s: Snippet| s@) == snippets@.map_values(|s: Snippet| s@).filter(
                Self::in_range_pred(from_date, to_date),
            ),
    {
        let ghost pred = Self::in_range_pred(from_date, to_date);
        let ghost all = snippets@.map_values(|s: Snippet| s@);
        let mut rest = snippets;
        let mut out: Vec<Snippet> = Vec::new();
        let ghost done: int = 0;
        proof {
            assert(all.take(0).filter(pred) =~= Seq::<SnippetModel>::empty());
        }
        while rest.len() > 0
            invariant
                pred == Self::in_range_pred(from_date, to_date),
                all == snippets@.map_values(|s: Snippet| s@),
                0 <= done <= all.len(),
                done + rest@.len() == all.len(),
                rest@.map_values(|s: Snippet| s@) =~= all.skip(done),
                out@.map_values(|s: Snippet| s@) == all.take(done).filter(pred),
            decreases rest@.len(),
    {
            let ghost prev = rest@;
            let s = rest.remove(0);
            let keep = s.in_date_range(from_date, to_date);
            proof {
                assert(prev.map_values(|x: Snippet| x@)[0] == s@);
                assert(all.skip(done)[0] == all[done]);
                assert(s@ == all[done]);
                assert forall|i: int| 0 <= i < rest@.len() implies #[trigger] rest@[i] == prev[i
                    + 1] by {
                    assert(rest@ == prev.remove(0));
                }
                assert forall|i: int| 0 <= i < rest@.len() implies rest@.map_values(
                    |x: Snippet| x@,
                )[i] == #[trigger] all.skip(done + 1)[i] by {
                    assert(prev.map_values(|x: Snippet| x@)[i + 1] == all.skip(done)[i + 1]);
                }
                assert(rest@.map_values(|x: Snippet| x@) =~= all.skip(done + 1));
            }
            proof {
                assert(pred(s@) == Self::spec_in_range(s@, from_date, to_date));
                assert(all.take(done + 1) =~= all.take(done) + seq![s@]);
                Seq::filter_distributes_over_add(all.take(done), seq![s@], pred);
                lemma_filter_singleton(s@, pred);
            }
            if keep {
                out.push(s);
                proof {
                    assert(out@.map_values(|x: Snippet| x@) =~= all.take(done).filter(pred).push(
                        s@,
                    ));
                    assert(all.take(done).filter(pred) + seq![s@] =~= all.take(done).filter(
                        pred,
                    ).push(s@));
                }
            } else {
                proof {
                    assert(all.take(done).filter(pred) + Seq::<SnippetModel>::empty() =~= all.take(
                        done,
                    ).filter(pred));
                }
            }
            proof {
                done = done + 1;
            }
        }
        proof {
            assert(all.take(all.len() as int) =~= all);
        }
        out
    }
}

proof fn lemma_filter_singleton(m: SnippetModel, pred: spec_fn(SnippetModel) -> bool)
    ensures
        seq![m].filter(pred) == if pred(m) {
            seq![m]
        } else {
            Seq::<SnippetModel>::empty()
        },
{
    reveal_with_fuel(Seq::filter, 2);
    assert(seq![m].drop_last() =~= Seq::<SnippetModel>::empty());
    assert(seq![m].last() == m);
}

/// A half-open range with equal endpoints holds no instant, so the date
/// filter over it keeps nothing, whatever the collection.
pub proof fn lemma_filter_empty_range(ms: Seq<SnippetModel>, a: Timestamp)
    ensures
        ms.filter(Snippet::in_range_pred(a, a)) == Seq::<SnippetModel>::empty(),
    decreases ms.len(),
{
    reveal(Seq::filter);
    if ms.len() > 0 {
        lemma_filter_empty_range(ms.drop_last(), a);
    }
}

} // verus!
