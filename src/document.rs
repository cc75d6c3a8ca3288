//! Loading a knowledge base from its key/value document notation.
//!
//! A document is a list of items. A line that starts with `- ` opens an item;
//! each line holds one `key: value` entry of the current item. Blank lines and
//! lines starting with `#` are skipped.
//!
//! ```text
//! - atom: leak
//!   choices: yes, no
//!   question: Is there a water leak?
//! - rule: leak=yes
//!   goal: Call a plumber
//! - rule: power=off
//!   then: outage=yes
//! ```
//!
//! An atom item has `choices` and may have a `question`; a rule item lists its
//! conditions and has either `then` (an `atom=choice`) or `goal` (its text).
//! Items are read in order, so the same rules as in the line notation apply.
use vstd::prelude::*;
use crate::loader::{parse_knowledge_base, Builder, LoadError, RuleEnd};
use crate::model::KnowledgeBase;
use crate::text::{chars_of, is_word, list_items, split_lines, string_of, sub_chars, trimmed_rest};

verus! {

/// One `key: value` entry, with the number of its line.
pub struct Entry {
    pub key: Vec<char>,
    pub value: Vec<char>,
    pub line: usize,
}

/// The entries of `line` when it holds one, and whether it opens an item.
fn read_entry(line: &Vec<char>, ln: usize) -> (r: Result<Option<(bool, Entry)>, LoadError>)
{
    let mut i: usize = 0;
    while i < line.len() && (line[i] == ' ' || line[i] == '\t' || line[i] == '\r')
        decreases line@.len() - i,
    {
        i = i + 1;
    }
    if i >= line.len() || line[i] == '#' {
        return Ok(None);
    }
    let mut opens = false;
    if line[i] == '-' && (i + 1 == line.len() || line[i + 1] == ' ' || line[i + 1] == '\t') {
        opens = true;
        i = i + 1;
    }
    let mut colon: usize = line.len();
    let mut k: usize = i;
    while k < line.len()
        invariant
            i <= k <= line@.len(),
            colon == line@.len() || (i <= colon < line@.len()),
        decreases line@.len() - k,
    {
        if colon == line.len() && line[k] == ':' {
            colon = k;
        }
        k = k + 1;
    }
    if colon == line.len() {
        return Err(LoadError::Syntax { line: ln });
    }
    let key = trimmed_rest(&sub_chars(line, i, colon), 0);
    let value = trimmed_rest(line, colon + 1);
    if key.len() == 0 {
        return Err(LoadError::Syntax { line: ln });
    }
    Ok(Some((opens, Entry { key, value, line: ln })))
}

/// Declare the atom or the rule of one item.
fn declare_item(b: &mut Builder, item: &Vec<Entry>) -> (r: Result<(), LoadError>)
    requires
        old(b).inv(),
        item@.len() > 0,
    ensures
        final(b).inv(),
{
    let head = &item[0];
    let ln = head.line;
    if is_word(&head.key, "atom") {
        let mut choices: Option<Vec<String>> = None;
        let mut question: Option<String> = None;
        for k in 1..item.len()
            invariant
                b.inv(),
        {
            let e = &item[k];
            if is_word(&e.key, "choices") && choices.is_none() {
                let items = list_items(&e.value);
                let mut cs: Vec<String> = Vec::new();
                for j in 0..items.len() {
                    cs.push(string_of(items[j].as_slice()));
                }
                choices = Some(cs);
            } else if is_word(&e.key, "question") && question.is_none() {
                question = Some(string_of(e.value.as_slice()));
            } else {
                return Err(LoadError::Syntax { line: e.line });
            }
        }
        let names = list_items(&head.value);
        if names.len() != 1 {
            return Err(LoadError::Syntax { line: ln });
        }
        let choices = match choices {
            Some(cs) => cs,
            None => {
                return Err(LoadError::Syntax { line: ln });
            },
        };
        if choices.len() == 0 {
            return Err(LoadError::Syntax { line: ln });
        }
        let name = string_of(names[0].as_slice());
        match b.declare_atom(name, choices, ln) {
            Ok(()) => {},
            Err(e) => {
                return Err(e);
            },
        }
        match question {
            Some(q) => {
                let name = string_of(names[0].as_slice());
                b.declare_question(name, q, ln)
            },
            None => Ok(()),
        }
    } else if is_word(&head.key, "rule") {
        let mut end: Option<RuleEnd> = None;
        for k in 1..item.len()
            invariant
                b.inv(),
        {
            let e = &item[k];
            if is_word(&e.key, "then") && end.is_none() {
                let pairs = list_items(&e.value);
                if pairs.len() != 1 {
                    return Err(LoadError::Syntax { line: e.line });
                }
                end = Some(RuleEnd::Fact { pair: pairs[0].clone() });
            } else if is_word(&e.key, "goal") && end.is_none() && e.value.len() > 0 {
                end = Some(RuleEnd::Goal { text: string_of(e.value.as_slice()) });
            } else {
                return Err(LoadError::Syntax { line: e.line });
            }
        }
        match end {
            Some(end) => b.declare_rule(&list_items(&head.value), end, ln),
            None => Err(LoadError::Syntax { line: ln }),
        }
    } else {
        Err(LoadError::Syntax { line: ln })
    }
}

/// Load a knowledge base from its document notation. What is returned is well
/// formed, as with the line notation: every reference is declared, atom names
/// are unique, and no atom's conclusion depends on itself.
pub fn parse_document(text: &str) -> (r: Result<KnowledgeBase, LoadError>)
    ensures
        r matches Ok(kb) ==> kb.wf(),
{
    let chars = chars_of(text);
    let lines = split_lines(&chars);
    let mut b = Builder::new();
    let mut item: Vec<Entry> = Vec::new();
    let mut li: usize = 0;
    while li < lines.len()
        invariant
            li <= lines@.len(),
            b.inv(),
        decreases lines@.len() - li,
    {
        let line = &lines[li];
        li = li + 1;
        match read_entry(line, li) {
            Err(e) => {
                return Err(e);
            },
            Ok(None) => {},
            Ok(Some((opens, entry))) => {
                if opens {
                    if item.len() > 0 {
                        match declare_item(&mut b, &item) {
                            Ok(()) => {},
                            Err(e) => {
                                return Err(e);
                            },
                        }
                    }
                    item = Vec::new();
                } else if item.len() == 0 {
                    return Err(LoadError::Syntax { line: entry.line });
                }
                item.push(entry);
            },
        }
    }
    if item.len() > 0 {
        match declare_item(&mut b, &item) {
            Ok(()) => {},
            Err(e) => {
                return Err(e);
            },
        }
    }
    b.finish()
}

/// The text is in the document notation: its first line that is neither blank
/// nor a comment opens an item.
pub fn is_document(text: &str) -> (r: bool) {
    let chars = chars_of(text);
    let lines = split_lines(&chars);
    for li in 0..lines.len() {
        match read_entry(&lines[li], li) {
            Ok(None) => {},
            Ok(Some((opens, _))) => {
                return opens;
            },
            Err(_) => {
                return false;
            },
        }
    }
    false
}

/// Load a knowledge base written in either notation: the document notation when
/// its first entry opens an item, else the line notation. What is returned is
/// well formed.
pub fn load(text: &str) -> (r: Result<KnowledgeBase, LoadError>)
    ensures
        r matches Ok(kb) ==> kb.wf(),
{
    if is_document(text) {
        parse_document(text)
    } else {
        parse_knowledge_base(text)
    }
}

} // verus!
