//! The structured unit flowing through the pipeline: one parsed log record
//! with its identifier, timestamp, content, verbatim raw text and an
//! unordered string-keyed metadata map, held as an association list.

use vstd::prelude::*;

use crate::text::str_chars;
use crate::text::chars_eq;

verus! {

/// Relies on `uuid::Uuid::new_v4`: draws a fresh random identifier; nothing
/// is promised of the value.
#[verifier::external_body]
fn fresh_id() -> u128 {
    uuid::Uuid::new_v4().as_u128()
}

/// Relies on `chrono::Local::now`: renders the wall clock as `HH:MM:SS.mmm`;
/// nothing is promised of the value.
#[verifier::external_body]
fn now_time_string() -> String {
    chrono::Local::now().format("%H:%M:%S%.3f").to_string()
}

/// First-match lookup in a metadata association list.
pub open spec fn meta_get(md: Seq<(String, String)>, key: Seq<char>) -> Option<Seq<char>>
    decreases md.len(),
{
    if md.len() == 0 {
        None
    } else if md[0].0@ == key {
        Some(md[0].1@)
    } else {
        meta_get(md.drop_first(), key)
    }
}

/// No entry of `md` carries `key`.
pub open spec fn meta_absent(md: Seq<(String, String)>, key: Seq<char>) -> bool {
    forall|j: int| 0 <= j < md.len() ==> md[j].0@ != key
}

/// The association list without any entry for `key`, order otherwise kept.
pub open spec fn meta_remove(md: Seq<(String, String)>, key: Seq<char>) -> Seq<(String, String)>
    decreases md.len(),
{
    if md.len() == 0 {
        md
    } else if md[0].0@ == key {
        meta_remove(md.drop_first(), key)
    } else {
        seq![md[0]] + meta_remove(md.drop_first(), key)
    }
}

proof fn lemma_meta_get_skip(md: Seq<(String, String)>, key: Seq<char>, i: int)
    requires
        0 <= i < md.len(),
        forall|j: int| 0 <= j < i ==> md[j].0@ != key,
    ensures
        meta_get(md, key) == meta_get(md.skip(i), key),
    decreases i,
{
    if i > 0 {
        assert(md[0].0@ != key);
        assert(meta_get(md, key) == meta_get(md.drop_first(), key));
        assert(md.drop_first() =~= md.skip(1));
        assert forall|j: int| 0 <= j < i - 1 implies md.skip(1)[j].0@ != key by {
            assert(md.skip(1)[j] == md[j + 1]);
        }
        lemma_meta_get_skip(md.skip(1), key, i - 1);
        assert(md.skip(1).skip(i - 1) =~= md.skip(i));
        assert(meta_get(md.skip(1), key) == meta_get(md.skip(i), key));
    } else {
        assert(md.skip(0) =~= md);
    }
}

proof fn lemma_meta_get_absent(md: Seq<(String, String)>, key: Seq<char>)
    requires
        meta_absent(md, key),
    ensures
        meta_get(md, key) is None,
    decreases md.len(),
{
    if md.len() > 0 {
        lemma_meta_get_absent(md.drop_first(), key);
    }
}

proof fn lemma_meta_remove_absent(md: Seq<(String, String)>, key: Seq<char>)
    ensures
        meta_absent(meta_remove(md, key), key),
    decreases md.len(),
{
    if md.len() > 0 {
        lemma_meta_remove_absent(md.drop_first(), key);
        if md[0].0@ != key {
            let rest = meta_remove(md.drop_first(), key);
            assert forall|j: int| 0 <= j < meta_remove(md, key).len() implies meta_remove(
                md,
                key,
            )[j].0@ != key by {
                if j > 0 {
                    assert(meta_remove(md, key)[j] == rest[j - 1]);
                }
            }
        }
    }
}

proof fn lemma_meta_remove_get_other(md: Seq<(String, String)>, key: Seq<char>, k: Seq<char>)
    requires
        k != key,
    ensures
        meta_get(meta_remove(md, key), k) == meta_get(md, k),
    decreases md.len(),
{
    if md.len() > 0 {
        lemma_meta_remove_get_other(md.drop_first(), key, k);
        if md[0].0@ != key {
            let r = seq![md[0]] + meta_remove(md.drop_first(), key);
            assert(r[0] == md[0]);
            assert(r.drop_first() =~= meta_remove(md.drop_first(), key));
        }
    }
}

proof fn lemma_meta_get_append_absent(md: Seq<(String, String)>, e: (String, String), key: Seq<char>)
    requires
        meta_absent(md, key),
    ensures
        meta_get(md.push(e), key) == if e.0@ == key {
            Some(e.1@)
        } else {
            None::<Seq<char>>
        },
    decreases md.len(),
{
    if md.len() == 0 {
        assert(md.push(e)[0] == e);
        if e.0@ != key {
            assert(md.push(e).drop_first() =~= Seq::<(String, String)>::empty());
            assert(meta_get(md.push(e), key) == meta_get(md.push(e).drop_first(), key));
            assert(meta_get(Seq::<(String, String)>::empty(), key) is None);
        }
    } else {
        assert(md.push(e)[0] == md[0]);
        assert(md[0].0@ != key);
        assert(md.push(e).drop_first() =~= md.drop_first().push(e));
        assert forall|j: int| 0 <= j < md.drop_first().len() implies md.drop_first()[j].0@
            != key by {
            assert(md.drop_first()[j] == md[j + 1]);
        }
        lemma_meta_get_append_absent(md.drop_first(), e, key);
        assert(meta_get(md.push(e), key) == meta_get(md.drop_first().push(e), key));
    }
}

/// One structured log entry.  `raw_content` always holds the exact text the
/// entry was derived from; `metadata` carries the optional fields (`level`,
/// `origin`, `tag`, ...) — an absent key means "not applicable".
pub struct LogItem {
    /// Process-unique identifier, used for stable identity only.
    pub id: u128,
    /// Human-readable timestamp, parsed from the source or stamped at creation.
    pub time: String,
    /// The decoder-extracted message body.
    pub content: String,
    /// The original undecoded text this entry was derived from, verbatim.
    pub raw_content: String,
    /// Unordered string-keyed optional fields.
    pub metadata: Vec<(String, String)>,
}

impl LogItem {
    /// Fresh entry with a new identifier and the current wall-clock time.
    pub fn new(content: String, raw_content: String) -> (r: LogItem)
        ensures
            r.content@ == content@,
            r.raw_content@ == raw_content@,
            r.metadata@.len() == 0,
    {
        LogItem {
            id: fresh_id(),
            time: now_time_string(),
            content,
            raw_content,
            metadata: Vec::new(),
        }
    }

    /// Fresh entry carrying a timestamp taken from the source text.
    pub fn with_time(time: String, content: String, raw_content: String) -> (r: LogItem)
        ensures
            r.time@ == time@,
            r.content@ == content@,
            r.raw_content@ == raw_content@,
            r.metadata@.len() == 0,
    {
        LogItem { id: fresh_id(), time, content, raw_content, metadata: Vec::new() }
    }

    /// Builder-style metadata insertion: the key now maps to `value`, every
    /// other key is unaffected.
    pub fn with_metadata(self, key: &str, value: &str) -> (r: LogItem)
        ensures
            r.id == self.id,
            r.time@ == self.time@,
            r.content@ == self.content@,
            r.raw_content@ == self.raw_content@,
            meta_get(r.metadata@, key@) == Some(value@),
            forall|k: Seq<char>| k != key@ ==> meta_get(r.metadata@, k) == meta_get(
                self.metadata@,
                k,
            ),
    {
        let kc = str_chars(key);
        let ghost md = self.metadata@;
        let mut kept: Vec<(String, String)> = Vec::new();
        let mut i: usize = 0;
        proof {
            assert(md.skip(0) =~= md);
            assert(Seq::<(String, String)>::empty() + meta_remove(md, key@) =~= meta_remove(
                md,
                key@,
            ));
        }
        while i < self.metadata.len()
            invariant
                0 <= i <= md.len(),
                md == self.metadata@,
                kc@ == key@,
                meta_remove(md, key@) == kept@ + meta_remove(md.skip(i as int), key@),
            decreases md.len() - i,
        {
            let ec = str_chars(self.metadata[i].0.as_str());
            proof {
                assert(md.skip(i as int)[0] == md[i as int]);
                assert(md.skip(i as int).drop_first() =~= md.skip(i + 1 as int));
            }
            if !chars_eq(&ec, &kc) {
                let entry = (self.metadata[i].0.clone(), self.metadata[i].1.clone());
                proof {
                    assert(entry == md[i as int]);
                    assert(meta_remove(md.skip(i as int), key@) =~= seq![md[i as int]]
                        + meta_remove(md.skip(i + 1 as int), key@));
                }
                kept.push(entry);
                proof {
                    assert(kept@ + meta_remove(md.skip(i + 1 as int), key@) =~= meta_remove(
                        md,
                        key@,
                    ));
                }
            }
            i = i + 1;
        }
        proof {
            assert(md.skip(md.len() as int) =~= Seq::<(String, String)>::empty());
            assert(kept@ + Seq::<(String, String)>::empty() =~= kept@);
            assert(kept@ == meta_remove(md, key@));
        }
        let ghost kept_view = kept@;
        let mut out = kept;
        out.push((key.to_owned(), value.to_owned()));
        proof {
            let e = out@.last();
            assert(out@ =~= kept_view.push(e));
            lemma_meta_remove_absent(md, key@);
            lemma_meta_get_append_absent(kept_view, e, key@);
            assert forall|k: Seq<char>| k != key@ implies meta_get(out@, k) == meta_get(md, k) by {
                lemma_meta_remove_get_other(md, key@, k);
                lemma_meta_get_of_push_other(kept_view, e, k);
            }
        }
        LogItem {
            id: self.id,
            time: self.time,
            content: self.content,
            raw_content: self.raw_content,
            metadata: out,
        }
    }

    /// Metadata lookup; `None` means the field does not apply to this entry.
    pub fn get_metadata<'a>(&'a self, key: &str) -> (r: Option<&'a str>)
        ensures
            match r {
                Some(v) => meta_get(self.metadata@, key@) == Some(v@),
                None => meta_get(self.metadata@, key@) is None,
            },
    {
        let kc = str_chars(key);
        let mut i: usize = 0;
        while i < self.metadata.len()
            invariant
                0 <= i <= self.metadata@.len(),
                kc@ == key@,
                forall|j: int| 0 <= j < i ==> self.metadata@[j].0@ != key@,
            decreases self.metadata@.len() - i,
        {
            let ec = str_chars(self.metadata[i].0.as_str());
            if chars_eq(&ec, &kc) {
                proof {
                    lemma_meta_get_skip(self.metadata@, key@, i as int);
                    assert(self.metadata@.skip(i as int)[0] == self.metadata@[i as int]);
                }
                return Some(self.metadata[i].1.as_str());
            }
            i = i + 1;
        }
        proof {
            lemma_meta_get_absent(self.metadata@, key@);
        }
        None
    }

    /// A field-equal copy of the entry, identifier included.
    pub fn clone_item(&self) -> (r: LogItem)
        ensures
            r.id == self.id,
            r.time == self.time,
            r.content == self.content,
            r.raw_content == self.raw_content,
            r.metadata@ == self.metadata@,
    {
        let mut md: Vec<(String, String)> = Vec::new();
        let mut i: usize = 0;
        while i < self.metadata.len()
            invariant
                0 <= i <= self.metadata@.len(),
                md@ == self.metadata@.subrange(0, i as int),
            decreases self.metadata@.len() - i,
        {
            let entry = (self.metadata[i].0.clone(), self.metadata[i].1.clone());
            proof {
                assert(entry == self.metadata@[i as int]);
            }
            md.push(entry);
            proof {
                assert(md@ =~= self.metadata@.subrange(0, i + 1 as int));
            }
            i = i + 1;
        }
        proof {
            assert(self.metadata@.subrange(0, self.metadata@.len() as int) =~= self.metadata@);
        }
        LogItem {
            id: self.id,
            time: self.time.clone(),
            content: self.content.clone(),
            raw_content: self.raw_content.clone(),
            metadata: md,
        }
    }

    /// What a yank copies: the verbatim raw text.
    pub fn make_yank_content(&self) -> (r: String)
        ensures
            r@ == self.raw_content@,
    {
        self.raw_content.clone()
    }
}

proof fn lemma_meta_get_of_push_other(md: Seq<(String, String)>, e: (String, String), k: Seq<char>)
    requires
        meta_get(md, k) is Some || e.0@ != k,
    ensures
        meta_get(md.push(e), k) == meta_get(md, k),
    decreases md.len(),
{
    if md.len() == 0 {
        if e.0@ != k {
            assert(md.push(e)[0] == e);
            assert(md.push(e).drop_first() =~= Seq::<(String, String)>::empty());
            assert(meta_get(md.push(e), k) == meta_get(md.push(e).drop_first(), k));
            assert(meta_get(Seq::<(String, String)>::empty(), k) is None);
        }
    } else {
        assert(md.push(e)[0] == md[0]);
        assert(md.push(e).drop_first() =~= md.drop_first().push(e));
        if md[0].0@ != k {
            lemma_meta_get_of_push_other(md.drop_first(), e, k);
            assert(meta_get(md.push(e), k) == meta_get(md.drop_first().push(e), k));
        }
    }
}

/// The mathematical content of an entry: every field the reassembler
/// determines.  `time` is `None` where the entry is stamped with the wall
/// clock; `level`, `origin` and `tag` are `None` where the metadata key is
/// absent.
pub ghost struct ItemModel {
    pub time: Option<Seq<char>>,
    pub level: Option<Seq<char>>,
    pub origin: Option<Seq<char>>,
    pub tag: Option<Seq<char>>,
    pub content: Seq<char>,
    pub raw: Seq<char>,
}

/// The entry realizes the model: all determined fields agree; the identifier
/// is left free.
pub open spec fn item_obeys(item: LogItem, m: ItemModel) -> bool {
    &&& (match m.time {
        Some(t) => item.time@ == t,
        None => true,
    })
    &&& item.content@ == m.content
    &&& item.raw_content@ == m.raw
    &&& meta_get(item.metadata@, "level"@) == m.level
    &&& meta_get(item.metadata@, "origin"@) == m.origin
    &&& meta_get(item.metadata@, "tag"@) == m.tag
}

/// An empty metadata list answers no key.
pub proof fn lemma_meta_get_empty(key: Seq<char>)
    ensures
        meta_get(Seq::<(String, String)>::empty(), key) is None,
{
}

/// The three metadata keys the reassembler writes are pairwise distinct.
pub proof fn lemma_meta_keys_distinct()
    ensures
        "level"@ != "origin"@,
        "level"@ != "tag"@,
        "origin"@ != "tag"@,
{
    reveal_strlit("level");
    reveal_strlit("origin");
    reveal_strlit("tag");
    assert("level"@.len() == 5);
    assert("origin"@.len() == 6);
    assert("tag"@.len() == 3);
}

/// Detail level for rendering and searching, decoder-defined.
#[derive(Clone, Copy, PartialEq, Eq, Structural, Debug)]
pub enum LogDetailLevel {
    ContentOnly,
    Basic,
    Medium,
    Detailed,
    Full,
}

impl LogDetailLevel {
    pub open spec fn spec_cycle_forward(self) -> LogDetailLevel {
        match self {
            LogDetailLevel::ContentOnly => LogDetailLevel::Basic,
            LogDetailLevel::Basic => LogDetailLevel::Medium,
            LogDetailLevel::Medium => LogDetailLevel::Detailed,
            LogDetailLevel::Detailed => LogDetailLevel::Full,
            LogDetailLevel::Full => LogDetailLevel::ContentOnly,
        }
    }

    pub open spec fn spec_cycle_backward(self) -> LogDetailLevel {
        match self {
            LogDetailLevel::ContentOnly => LogDetailLevel::Full,
            LogDetailLevel::Basic => LogDetailLevel::ContentOnly,
            LogDetailLevel::Medium => LogDetailLevel::Basic,
            LogDetailLevel::Detailed => LogDetailLevel::Medium,
            LogDetailLevel::Full => LogDetailLevel::Detailed,
        }
    }

    /// Next level, wrapping from the most detailed back to the least.
    pub fn cycle_forward(&self) -> (r: LogDetailLevel)
        ensures
            r == self.spec_cycle_forward(),
    {
        match self {
            LogDetailLevel::ContentOnly => LogDetailLevel::Basic,
            LogDetailLevel::Basic => LogDetailLevel::Medium,
            LogDetailLevel::Medium => LogDetailLevel::Detailed,
            LogDetailLevel::Detailed => LogDetailLevel::Full,
            LogDetailLevel::Full => LogDetailLevel::ContentOnly,
        }
    }

    /// Previous level, wrapping from the least detailed to the most.
    pub fn cycle_backward(&self) -> (r: LogDetailLevel)
        ensures
            r == self.spec_cycle_backward(),
    {
        match self {
            LogDetailLevel::ContentOnly => LogDetailLevel::Full,
            LogDetailLevel::Basic => LogDetailLevel::ContentOnly,
            LogDetailLevel::Medium => LogDetailLevel::Basic,
            LogDetailLevel::Detailed => LogDetailLevel::Medium,
            LogDetailLevel::Full => LogDetailLevel::Detailed,
        }
    }

    pub open spec fn spec_from_u8(value: u8) -> LogDetailLevel {
        if value == 0 {
            LogDetailLevel::ContentOnly
        } else if value == 1 {
            LogDetailLevel::Basic
        } else if value == 2 {
            LogDetailLevel::Medium
        } else if value == 3 {
            LogDetailLevel::Detailed
        } else {
            LogDetailLevel::Full
        }
    }

    pub open spec fn spec_as_u8(self) -> u8 {
        match self {
            LogDetailLevel::ContentOnly => 0,
            LogDetailLevel::Basic => 1,
            LogDetailLevel::Medium => 2,
            LogDetailLevel::Detailed => 3,
            LogDetailLevel::Full => 4,
        }
    }

    /// Numeric level to enum, saturating above the most detailed.
    pub fn from_u8(value: u8) -> (r: LogDetailLevel)
        ensures
            r == LogDetailLevel::spec_from_u8(value),
    {
        if value == 0 {
            LogDetailLevel::ContentOnly
        } else if value == 1 {
            LogDetailLevel::Basic
        } else if value == 2 {
            LogDetailLevel::Medium
        } else if value == 3 {
            LogDetailLevel::Detailed
        } else {
            LogDetailLevel::Full
        }
    }

    /// Enum to its numeric level.
    pub fn as_u8(&self) -> (r: u8)
        ensures
            r == self.spec_as_u8(),
    {
        match self {
            LogDetailLevel::ContentOnly => 0,
            LogDetailLevel::Basic => 1,
            LogDetailLevel::Medium => 2,
            LogDetailLevel::Detailed => 3,
            LogDetailLevel::Full => 4,
        }
    }
}

impl From<u8> for LogDetailLevel {
    fn from(value: u8) -> (r: LogDetailLevel) {
        LogDetailLevel::from_u8(value)
    }
}

impl vstd::std_specs::convert::FromSpecImpl<u8> for LogDetailLevel {
    open spec fn obeys_from_spec() -> bool {
        true
    }

    open spec fn from_spec(v: u8) -> LogDetailLevel {
        LogDetailLevel::spec_from_u8(v)
    }
}

impl From<LogDetailLevel> for u8 {
    fn from(value: LogDetailLevel) -> (r: u8) {
        value.as_u8()
    }
}

impl vstd::std_specs::convert::FromSpecImpl<LogDetailLevel> for u8 {
    open spec fn obeys_from_spec() -> bool {
        true
    }

    open spec fn from_spec(v: LogDetailLevel) -> u8 {
        v.spec_as_u8()
    }
}

/// Detail levels are small non-negative integers; raising one is clamped to
/// the decoder's maximum.
pub fn increment_detail_level(level: u8, max: u8) -> (r: u8)
    ensures
        ({
            let bumped: int = if level < 255 {
                level + 1
            } else {
                255
            };
            r == if bumped <= max {
                bumped
            } else {
                max as int
            }
        }),
{
    let bumped = if level == 255 {
        255
    } else {
        level + 1
    };
    if bumped <= max {
        bumped
    } else {
        max
    }
}

/// Lowering a detail level stops at zero.
pub fn decrement_detail_level(level: u8) -> (r: u8)
    ensures
        r == if level >= 1 {
            level - 1
        } else {
            0
        },
{
    if level >= 1 {
        level - 1
    } else {
        0
    }
}

} // verus!
