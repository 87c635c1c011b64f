//! Language-model service settings: endpoint, key and model, and how user edits apply.
use vstd::prelude::*;
use crate::fen::skip_ws;
use crate::text::{white_space, is_white_space, str_chars, push_char};

verus! {

/// Settings of the OpenAI-compatible chat service.
#[derive(Clone, Debug)]
pub struct Settings {
    pub base_url: String,
    pub api_key: String,
    pub model: String,
}

/// The default service endpoint.
pub fn default_base_url() -> (s: String)
    ensures
        s@ == "https://open.bigmodel.cn/api/paas/v4"@,
{
    String::from_str("https://open.bigmodel.cn/api/paas/v4")
}

/// The default model.
pub fn default_model() -> (s: String)
    ensures
        s@ == "glm-4.7-flash"@,
{
    String::from_str("glm-4.7-flash")
}

/// Index just after the last character before `j` that is not white space (0 if none).
pub open spec fn rskip_ws(s: Seq<char>, j: int) -> int
    decreases j,
{
    if j <= 0 {
        0
    } else if white_space(s[j - 1]) {
        rskip_ws(s, j - 1)
    } else {
        j
    }
}

/// `s` without leading and trailing white space (`str::trim`).
pub open spec fn trim_spec(s: Seq<char>) -> Seq<char> {
    let a = skip_ws(s, 0);
    let e = rskip_ws(s, s.len() as int);
    if a >= e {
        seq![]
    } else {
        s.subrange(a, e)
    }
}

/// `s` without trailing '/' characters (`trim_end_matches('/')`).
pub open spec fn strip_slashes(s: Seq<char>) -> Seq<char>
    decreases s.len(),
{
    if s.len() > 0 && s.last() == '/' {
        strip_slashes(s.drop_last())
    } else {
        s
    }
}

/// Some character of `s` is not white space.
pub open spec fn has_text(s: Seq<char>) -> bool {
    exists|i: int| 0 <= i < s.len() && !white_space(#[trigger] s[i])
}

proof fn lemma_skip_ws_props(s: Seq<char>, i: int)
    requires
        0 <= i <= s.len(),
    ensures
        i <= skip_ws(s, i) <= s.len(),
        forall|k: int| i <= k < skip_ws(s, i) ==> white_space(#[trigger] s[k]),
        skip_ws(s, i) < s.len() ==> !white_space(s[skip_ws(s, i)]),
    decreases s.len() - i,
{
    if i < s.len() && white_space(s[i]) {
        lemma_skip_ws_props(s, i + 1);
    }
}

proof fn lemma_rskip_ws_props(s: Seq<char>, j: int)
    requires
        0 <= j <= s.len(),
    ensures
        0 <= rskip_ws(s, j) <= j,
        forall|k: int| rskip_ws(s, j) <= k < j ==> white_space(#[trigger] s[k]),
        rskip_ws(s, j) > 0 ==> !white_space(s[rskip_ws(s, j) - 1]),
    decreases j,
{
    if j > 0 && white_space(s[j - 1]) {
        lemma_rskip_ws_props(s, j - 1);
    }
}

/// The trimmed text is empty exactly when every character is white space.
proof fn lemma_trim_empty(s: Seq<char>)
    ensures
        (trim_spec(s).len() == 0) == !has_text(s),
{
    lemma_skip_ws_props(s, 0);
    lemma_rskip_ws_props(s, s.len() as int);
    let a = skip_ws(s, 0);
    if has_text(s) {
        let i = choose|i: int| 0 <= i < s.len() && !white_space(#[trigger] s[i]);
        assert(a <= i);
        assert(i < rskip_ws(s, s.len() as int));
    }
}

/// Trims white space from both ends.
pub fn trim(s: &str) -> (t: String)
    ensures
        t@ == trim_spec(s@),
{
    let cs = str_chars(s);
    let n = cs.len();
    let mut a: usize = 0;
    while a < n && is_white_space(cs[a])
        invariant
            0 <= a <= n,
            n == cs@.len(),
            skip_ws(cs@, 0) == skip_ws(cs@, a as int),
        decreases n - a,
    {
        a = a + 1;
    }
    let mut e: usize = n;
    while e > 0 && is_white_space(cs[e - 1])
        invariant
            0 <= e <= n,
            n == cs@.len(),
            rskip_ws(cs@, n as int) == rskip_ws(cs@, e as int),
        decreases e,
    {
        e = e - 1;
    }
    let mut t = String::new();
    if a < e {
        let mut i = a;
        while i < e
            invariant
                a <= i <= e <= n,
                n == cs@.len(),
                t@ == cs@.subrange(a as int, i as int),
            decreases e - i,
        {
            push_char(&mut t, cs[i]);
            i = i + 1;
            assert(t@ =~= cs@.subrange(a as int, i as int));
        }
    }
    t
}

/// Removes trailing '/' characters.
pub fn strip_trailing_slashes(s: &str) -> (t: String)
    ensures
        t@ == strip_slashes(s@),
{
    let cs = str_chars(s);
    let mut e: usize = cs.len();
    assert(cs@.take(e as int) =~= cs@);
    while e > 0 && cs[e - 1] == '/'
        invariant
            0 <= e <= cs@.len(),
            strip_slashes(cs@) == strip_slashes(cs@.take(e as int)),
        decreases e,
    {
        proof {
            assert(cs@.take(e as int).drop_last() =~= cs@.take(e - 1));
        }
        e = e - 1;
    }
    proof {
        if e > 0 {
            assert(cs@.take(e as int).last() == cs@[e - 1]);
        }
        assert(strip_slashes(cs@.take(e as int)) == cs@.take(e as int));
        assert(cs@.take(cs@.len() as int) =~= cs@);
    }
    let mut t = String::new();
    let mut i: usize = 0;
    while i < e
        invariant
            0 <= i <= e <= cs@.len(),
            t@ == cs@.take(i as int),
        decreases e - i,
    {
        push_char(&mut t, cs[i]);
        i = i + 1;
        assert(t@ =~= cs@.take(i as int));
    }
    t
}

/// The chat-completions endpoint under a base URL.
pub fn chat_url(base_url: &str) -> (u: String)
    ensures
        u@ == strip_slashes(base_url@) + "/chat/completions"@,
{
    let mut u = strip_trailing_slashes(base_url);
    u.append("/chat/completions");
    u
}

/// The model's answer from the reply content: trimmed, or "AI 返回内容为空" when there is
/// no content or it is blank.
pub fn reply_text(content: Option<&str>) -> (res: Result<String, String>)
    ensures
        match content {
            Some(c) => if has_text(c@) {
                res matches Ok(t) && t@ == trim_spec(c@)
            } else {
                res matches Err(e) && e@ == "AI 返回内容为空"@
            },
            None => res matches Err(e) && e@ == "AI 返回内容为空"@,
        },
{
    match content {
        Some(c) => {
            let t = trim(c);
            proof {
                lemma_trim_empty(c@);
            }
            if t.as_str().is_empty() {
                Err(String::from_str("AI 返回内容为空"))
            } else {
                Ok(t)
            }
        },
        None => Err(String::from_str("AI 返回内容为空")),
    }
}

/// Bytes that `c` takes in UTF-8.
pub open spec fn utf8_len(c: char) -> int {
    let u = c as u32;
    if u < 0x80 {
        1
    } else if u < 0x800 {
        2
    } else if u < 0x10000 {
        3
    } else {
        4
    }
}

/// Bytes that the first `k` characters of `s` take in UTF-8: the character boundaries.
pub open spec fn utf8_upto(s: Seq<char>, k: int) -> int
    decreases k,
{
    if k <= 0 {
        0
    } else {
        utf8_upto(s, k - 1) + utf8_len(s[k - 1])
    }
}

/// Length in bytes of the longest run of whole characters at the start of `text` that
/// takes at most `max` bytes: the largest character boundary at or below `max` (and
/// the whole text when it fits). Error bodies are cut to this length.
pub fn head_len(text: &str, max: usize) -> (n: usize)
    ensures
        exists|k: int| 0 <= k <= text@.len() && n == #[trigger] utf8_upto(text@, k) && n <= max
            && (k == text@.len() || utf8_upto(text@, k + 1) > max),
{
    let cs = str_chars(text);
    let mut n: usize = 0;
    let mut k: usize = 0;
    while k < cs.len()
        invariant
            cs@ == text@,
            0 <= k <= cs@.len(),
            n == utf8_upto(text@, k as int),
            n <= max,
        decreases cs@.len() - k,
    {
        let u = cs[k] as u32;
        let w: usize = if u < 0x80 {
            1
        } else if u < 0x800 {
            2
        } else if u < 0x10000 {
            3
        } else {
            4
        };
        if w > max - n {
            return n;
        }
        n = n + w;
        k = k + 1;
    }
    n
}

impl Settings {
    /// The settings used when none are saved.
    pub fn defaults() -> (s: Settings)
        ensures
            s.base_url@ == "https://open.bigmodel.cn/api/paas/v4"@,
            s.api_key@ == Seq::<char>::empty(),
            s.model@ == "glm-4.7-flash"@,
    {
        Settings { base_url: default_base_url(), api_key: String::new(), model: default_model() }
    }

    /// A key is configured: the key is not blank.
    pub fn has_ai(&self) -> (b: bool)
        ensures
            b == has_text(self.api_key@),
    {
        let t = trim(self.api_key.as_str());
        proof {
            lemma_trim_empty(self.api_key@);
        }
        !t.as_str().is_empty()
    }

    /// The key as sent to the service (trimmed).
    pub fn bearer_key(&self) -> (k: String)
        ensures
            k@ == trim_spec(self.api_key@),
    {
        trim(self.api_key.as_str())
    }

    /// Applies the user's edits: a non-blank base URL is trimmed and loses trailing '/',
    /// a given key is trimmed (a blank one clears the key), a non-blank model is trimmed.
    pub fn apply_update(&mut self, base_url: Option<String>, api_key: Option<String>, model: Option<String>)
        ensures
            final(self).base_url@ == (match base_url {
                Some(v) => if has_text(v@) {
                    strip_slashes(trim_spec(v@))
                } else {
                    old(self).base_url@
                },
                None => old(self).base_url@,
            }),
            final(self).api_key@ == (match api_key {
                Some(v) => trim_spec(v@),
                None => old(self).api_key@,
            }),
            final(self).model@ == (match model {
                Some(v) => if has_text(v@) {
                    trim_spec(v@)
                } else {
                    old(self).model@
                },
                None => old(self).model@,
            }),
    {
        if let Some(v) = base_url {
            let t = trim(v.as_str());
            proof {
                lemma_trim_empty(v@);
            }
            if !t.as_str().is_empty() {
                self.base_url = strip_trailing_slashes(t.as_str());
            }
        }
        if let Some(v) = api_key {
            self.api_key = trim(v.as_str());
        }
        if let Some(v) = model {
            let t = trim(v.as_str());
            proof {
                lemma_trim_empty(v@);
            }
            if !t.as_str().is_empty() {
                self.model = t;
            }
        }
    }
}

} // verus!
