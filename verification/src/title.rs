//! Task title generation: the prompt handed to the model, and the cleanup
//! applied to what comes back.

use crate::strutil::{first_index_of, strip_one_cr, trim_seq};
use vstd::prelude::*;
use vstd::string::StringExecFns;

verus! {

/// Builds prompts for task titles and cleans the generated text.
#[derive(Debug)]
pub struct TaskTitleService;

/// The first line of a text, a carriage return before the break dropped.
pub open spec fn first_line(t: Seq<char>) -> Seq<char> {
    let i = first_index_of(t, '\n');
    if i == t.len() {
        t
    } else {
        strip_one_cr(t.take(i))
    }
}

/// A sequence with every leading and trailing occurrence of one character
/// removed.
pub open spec fn trim_char(s: Seq<char>, c: char) -> Seq<char>
    decreases s.len(),
{
    if s.len() == 0 {
        s
    } else if s[0] == c {
        trim_char(s.drop_first(), c)
    } else if s.last() == c {
        trim_char(s.drop_last(), c)
    } else {
        s
    }
}

/// What cleaning a generated title leaves: nothing for blank text, else
/// the first line trimmed and stripped of straight and curly quotes.
pub open spec fn cleaned_title(raw: Seq<char>) -> Seq<char> {
    let trimmed = trim_seq(raw);
    if trimmed.len() == 0 {
        Seq::empty()
    } else {
        let line = trim_seq(first_line(trimmed));
        trim_char(trim_char(trim_char(line, '"'), '\u{201c}'), '\u{201d}')
    }
}

/// Trim every leading and trailing occurrence of one character.
fn trim_char_vec(s: &Vec<char>, c: char) -> (r: Vec<char>)
    ensures
        r@ == trim_char(s@, c),
{
    let n = s.len();
    let mut lo: usize = 0;
    while lo < n && s[lo] == c
        invariant
            n == s@.len(),
            lo <= n,
            forall|i: int| 0 <= i < lo ==> s@[i] == c,
        decreases n - lo,
    {
        lo = lo + 1;
    }
    let mut hi: usize = n;
    while hi > lo && s[hi - 1] == c
        invariant
            n == s@.len(),
            lo <= hi <= n,
            forall|i: int| 0 <= i < lo ==> s@[i] == c,
            forall|i: int| hi <= i < n ==> s@[i] == c,
        decreases hi,
    {
        hi = hi - 1;
    }
    let r = crate::strutil::copy_range(s, lo, hi);
    proof {
        lemma_trim_char_window(s@, c, lo as int, hi as int);
    }
    r
}

/// Trimming one character only ever happens at the two ends.
proof fn lemma_trim_char_window(s: Seq<char>, c: char, lo: int, hi: int)
    requires
        0 <= lo <= hi <= s.len(),
        forall|i: int| 0 <= i < lo ==> s[i] == c,
        forall|i: int| hi <= i < s.len() ==> s[i] == c,
        lo < hi ==> s[lo] != c,
        lo < hi ==> s[hi - 1] != c,
    ensures
        trim_char(s, c) == s.subrange(lo, hi),
    decreases s.len(),
{
    if s.len() == 0 {
        assert(s.subrange(lo, hi) =~= s);
    } else if lo == hi {
        if s[0] == c {
            lemma_trim_char_window(s.drop_first(), c, 0, 0);
        } else {
            assert(s.len() == 0);
        }
        assert(s.subrange(lo, hi) =~= Seq::<char>::empty());
    } else if s[0] == c {
        lemma_trim_char_window(s.drop_first(), c, lo - 1, hi - 1);
        assert(s.drop_first().subrange(lo - 1, hi - 1) =~= s.subrange(lo, hi));
    } else if s.last() == c {
        assert(lo == 0);
        assert(hi < s.len());
        lemma_trim_char_window(s.drop_last(), c, lo, hi);
        assert(s.drop_last().subrange(lo, hi) =~= s.subrange(lo, hi));
    } else {
        assert(lo == 0 && hi == s.len());
        assert(s.subrange(lo, hi) =~= s);
    }
}

impl TaskTitleService {
    /// A title service.
    pub fn new() -> (r: Self) {
        TaskTitleService
    }

    /// Clean a generated title, per [`cleaned_title`].
    pub fn post_process_title(&self, raw: &str) -> (r: String)
        ensures
            r@ == cleaned_title(raw@),
    {
        let chars = crate::strutil::str_chars(raw);
        let trimmed = crate::strutil::trim_chars(&chars);
        if trimmed.len() == 0 {
            let empty = String::new();
            proof {
                assert(empty@ =~= Seq::<char>::empty());
            }
            return empty;
        }
        let brk = crate::strutil::find_char_from(&trimmed, 0, '\n');
        proof {
            assert(trimmed@.skip(0) =~= trimmed@);
        }
        let mut line = crate::strutil::copy_range(&trimmed, 0, brk);
        proof {
            assert(line@ =~= trimmed@.take(brk as int));
        }
        if brk < trimmed.len() {
            if line.len() > 0 && line[line.len() - 1] == '\r' {
                line.pop();
            }
            proof {
                assert(line@ =~= first_line(trimmed@));
            }
        } else {
            proof {
                assert(line@ =~= first_line(trimmed@));
            }
        }
        let line = crate::strutil::trim_chars(&line);
        let line = trim_char_vec(&line, '"');
        let line = trim_char_vec(&line, '\u{201c}');
        let line = trim_char_vec(&line, '\u{201d}');
        crate::strutil::chars_to_string(&line)
    }

    /// Build the title prompt around the user's message and the language
    /// instruction: the fixed guidance, the message quoted, the examples,
    /// the instruction, and the closing demand, in that order.
    pub fn build_prompt(&self, user_input: &str, language_instruction: &str) -> (r: String)
        ensures
            r@ == prompt_head() + user_input@ + prompt_middle() + language_instruction@
                + prompt_tail(),
    {
        let mut s = String::new();
        s.append(
            "You are an AI assistant that generates concise, descriptive titles for tasks.\n\nUser's message: \"",
        );
        s.append(user_input);
        s.append(
            "\"\n\nGenerate a short, clear title (5-10 words) that captures the essence of what the user is asking or discussing.\n\nGuidelines:\n1. Keep it concise (5-10 words maximum)\n2. Use title case (capitalize first letter of main words)\n3. Be specific and descriptive\n4. Avoid generic titles like \"New Chat\" or \"Question\"\n5. Focus on the main topic or intent\n\nExamples:\n- \"Fix Login Bug\"\n- \"Create User Dashboard\"\n- \"Explain React Hooks\"\n- \"Database Schema Design\"\n- \"API Rate Limiting Issue\"\n\n",
        );
        s.append(language_instruction);
        s.append(
            "\n\nProvide ONLY the title without any quotes, explanations, or additional formatting.",
        );
        s
    }

    /// The model class preferred for title work.
    pub fn preferred_model_type() -> (r: &'static str)
        ensures
            r@ == "small"@,
    {
        "small"
    }
}

/// The prompt's opening, up to the quoted message.
pub open spec fn prompt_head() -> Seq<char> {
    "You are an AI assistant that generates concise, descriptive titles for tasks.\n\nUser's message: \""@
}

/// The prompt between the message and the language instruction.
pub open spec fn prompt_middle() -> Seq<char> {
    "\"\n\nGenerate a short, clear title (5-10 words) that captures the essence of what the user is asking or discussing.\n\nGuidelines:\n1. Keep it concise (5-10 words maximum)\n2. Use title case (capitalize first letter of main words)\n3. Be specific and descriptive\n4. Avoid generic titles like \"New Chat\" or \"Question\"\n5. Focus on the main topic or intent\n\nExamples:\n- \"Fix Login Bug\"\n- \"Create User Dashboard\"\n- \"Explain React Hooks\"\n- \"Database Schema Design\"\n- \"API Rate Limiting Issue\"\n\n"@
}

/// The prompt's closing demand.
pub open spec fn prompt_tail() -> Seq<char> {
    "\n\nProvide ONLY the title without any quotes, explanations, or additional formatting."@
}

/// The instruction for a language mark: Chinese when asked, English
/// otherwise.
pub open spec fn spec_language_instruction(language: Seq<char>) -> Seq<char> {
    if language == "zh"@ {
        "Generate the title in Chinese."@
    } else {
        "Generate the title in English."@
    }
}

/// Pick the language instruction, per [`spec_language_instruction`].
pub fn language_instruction(language: &str) -> (r: &'static str)
    ensures
        r@ == spec_language_instruction(language@),
{
    if crate::strutil::str_eq(language, "zh") {
        "Generate the title in Chinese."
    } else {
        "Generate the title in English."
    }
}

} // verus!
