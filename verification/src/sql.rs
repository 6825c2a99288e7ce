//! The search-backend query compiler: a query object turned into one SQL
//! statement over the local metadata mirror.
//!
//! Ratings are carried in hundredths, like episode numbers elsewhere in the
//! engine.

use vstd::prelude::*;

use crate::field::spec_lower_char;
use crate::field::lower_chars;
use crate::text::chars_of;
use crate::text::replace_all;
use crate::text::replace_all_str;
use crate::text::spec_u64_string;
use crate::text::string_from_chars;
use crate::text::u64_to_string;

verus! {

/// A stored search filter: the filter lines and the name they run under.
pub struct FilterRequest {
    pub filter: Vec<String>,
    pub name: String,
}

/// How results are ordered.
pub struct Order {
    pub desc: bool,
    pub kind: OrderKind,
}

/// The orderable columns.
pub enum OrderKind {
    Id,
    PrivateId,
    Title,
    LastUpdatedMU,
}

/// A value named either by its row id or by its text.
pub enum IdOrValue {
    Value(String),
    Id(i32),
}

/// One search condition.
pub enum ItemData {
    Id(i32),
    Pid(i32),
    PublicId(i64),
    ForumId(i64),
    Key(String),
    Title(String),
    Description(String),
    Type(IdOrValue),
    Year { eq: bool, bigger: bool, value: i32 },
    LatestChapter { eq: bool, bigger: bool, value: i32 },
    Tag(IdOrValue),
    Genre(IdOrValue),
    Licensed(bool),
    Completed(bool),
    Artist(IdOrValue),
    Author(IdOrValue),
    Publisher { value: IdOrValue, eng: bool },
    Rating { eq: bool, bigger: bool, rating: u64 },
}

/// A possibly negated condition.
pub struct Item {
    pub not: bool,
    pub data: ItemData,
}

/// A conjunction or disjunction of conditions and nested groups.
pub struct Array {
    pub or: bool,
    pub items: Vec<ItemOrArray>,
}

/// A condition or a nested group.
pub enum ItemOrArray {
    Item(Item),
    Array(Array),
}

/// A whole search request: the condition tree and the ordering.
pub struct SearchRequest {
    pub data: Array,
    pub order: Order,
}

/// A text escaped for an SQL string literal: quotes doubled, backslashes
/// doubled, the LIKE wildcards escaped - in that order, left to right.
pub open spec fn spec_save_sql(s: Seq<char>) -> Seq<char> {
    replace_all(
        replace_all(
            replace_all(replace_all(s, seq!['\''], seq!['\'', '\'']), seq!['\\'], seq!['\\', '\\']),
            seq!['%'],
            seq!['\\', '%'],
        ),
        seq!['_'],
        seq!['\\', '_'],
    )
}

/// Escapes a text for an SQL string literal.
pub fn save_sql_str(s: &str) -> (r: String)
    ensures
        r@ == spec_save_sql(s@),
{
    proof {
        reveal_strlit("'");
        reveal_strlit("''");
        reveal_strlit("\\");
        reveal_strlit("\\\\");
        reveal_strlit("%");
        reveal_strlit("\\%");
        reveal_strlit("_");
        reveal_strlit("\\_");
        assert("'"@ =~= seq!['\'']);
        assert("''"@ =~= seq!['\'', '\'']);
        assert("\\"@ =~= seq!['\\']);
        assert("\\\\"@ =~= seq!['\\', '\\']);
        assert("%"@ =~= seq!['%']);
        assert("\\%"@ =~= seq!['\\', '%']);
        assert("_"@ =~= seq!['_']);
        assert("\\_"@ =~= seq!['\\', '_']);
    }
    let s1 = replace_all_str(s, "'", "''");
    let s2 = replace_all_str(s1.as_str(), "\\", "\\\\");
    let s3 = replace_all_str(s2.as_str(), "%", "\\%");
    replace_all_str(s3.as_str(), "_", "\\_")
}

/// The comparison written for a bound: `>` or `<`, negation flipping both the
/// direction and the equality, then `=` when equality is allowed, a space,
/// and the bound itself.
pub open spec fn spec_year(not: bool, bigger: bool, eq: bool, number: Seq<char>) -> Seq<char> {
    let eq2 = if not {
        !eq
    } else {
        eq
    };
    let bigger2 = if not {
        !bigger
    } else {
        bigger
    };
    (if bigger2 {
        ">"@
    } else {
        "<"@
    }) + (if eq2 {
        "="@
    } else {
        ""@
    }) + " "@ + number
}

/// Writes the comparison of a numeric bound.
pub fn year(not: bool, bigger: bool, eq: bool, number: &str) -> (r: String)
    ensures
        r@ == spec_year(not, bigger, eq, number@),
{
    let eq2 = if not {
        !eq
    } else {
        eq
    };
    let bigger2 = if not {
        !bigger
    } else {
        bigger
    };
    let sb = if bigger2 {
        String::from_str(">")
    } else {
        String::from_str("<")
    };
    let with_eq = if eq2 {
        sb.concat("=")
    } else {
        sb.concat("")
    };
    with_eq.concat(" ").concat(number)
}

/// The decimal writing of a signed number.
pub open spec fn spec_i64_string(n: int) -> Seq<char> {
    if n < 0 {
        seq!['-'] + spec_u64_string(-n)
    } else {
        spec_u64_string(n)
    }
}

/// Writes a signed number in decimal.
pub fn i64_to_string(n: i64) -> (r: String)
    ensures
        r@ == spec_i64_string(n as int),
{
    if n >= 0 {
        u64_to_string(n as u64)
    } else {
        let wide: i128 = n as i128;
        let mag: u64 = (0 - wide) as u64;
        let digits = u64_to_string(mag);
        let sign = String::from_str("-");
        proof {
            reveal_strlit("-");
            assert(sign@ =~= seq!['-']);
        }
        sign.concat(digits.as_str())
    }
}

/// The decimal writing of a rating in hundredths: the whole part, then the
/// fraction digits that are not trailing zeros.
pub open spec fn spec_centi_string(c: int) -> Seq<char> {
    let ip = c / 100;
    let f = c % 100;
    if f == 0 {
        spec_u64_string(ip)
    } else if f % 10 == 0 {
        spec_u64_string(ip) + seq!['.', crate::text::digit_char_of(f / 10)]
    } else {
        spec_u64_string(ip) + seq!['.', crate::text::digit_char_of(f / 10), crate::text::digit_char_of(f % 10)]
    }
}

/// Writes a rating held in hundredths.
pub fn centi_to_string(c: u64) -> (r: String)
    ensures
        r@ == spec_centi_string(c as int),
{
    let ip = c / 100;
    let f = c % 100;
    let whole = u64_to_string(ip);
    if f == 0 {
        whole
    } else {
        let mut tail: Vec<char> = Vec::new();
        tail.push('.');
        tail.push(crate::text::exec_digit_char(f / 10));
        if f % 10 != 0 {
            tail.push(crate::text::exec_digit_char(f % 10));
            proof {
                assert(tail@ =~= seq![
                    '.',
                    crate::text::digit_char_of(f as int / 10),
                    crate::text::digit_char_of(f as int % 10),
                ]);
            }
        } else {
            proof {
                assert(tail@ =~= seq!['.', crate::text::digit_char_of(f as int / 10)]);
            }
        }
        let tail_text = string_from_chars(&tail);
        whole.concat(tail_text.as_str())
    }
}

/// ASCII lowercasing of a text.
pub open spec fn spec_lower(s: Seq<char>) -> Seq<char> {
    s.map_values(|c: char| spec_lower_char(c))
}

fn lower_str(s: &str) -> (r: String)
    ensures
        r@ == spec_lower(s@),
{
    let v = chars_of(s);
    let lv = lower_chars(&v);
    string_from_chars(&lv)
}

/// The negation words of a condition: `not ` before a predicate, `!` before a
/// comparison.
pub open spec fn spec_n(not: bool) -> Seq<char> {
    if not {
        "not "@
    } else {
        ""@
    }
}

pub open spec fn spec_n2(not: bool) -> Seq<char> {
    if not {
        "!"@
    } else {
        ""@
    }
}

/// The SQL text of a boolean.
pub open spec fn spec_bool_string(b: bool) -> Seq<char> {
    if b {
        "true"@
    } else {
        "false"@
    }
}

/// The SQL condition written for one item.
pub open spec fn spec_item_sql(item: Item) -> Seq<char> {
    let n = spec_n(item.not);
    let n2 = spec_n2(item.not);
    match item.data {
        ItemData::Id(id) => "id "@ + n2 + "= "@ + spec_i64_string(id as int),
        ItemData::Pid(id) => "private_id "@ + n2 + "= "@ + spec_i64_string(id as int),
        ItemData::PublicId(id) => "public_id "@ + n2 + "= "@ + spec_i64_string(id as int),
        ItemData::ForumId(id) => "forum_id "@ + n2 + "= "@ + spec_i64_string(id as int),
        ItemData::Key(key) => "url_key "@ + n2 + "= "@ + key@,
        ItemData::Title(title) => n
            + "EXISTS(SELECT 1 FROM unnest(titles) as element WHERE lower(element) ILIKE '%"@
            + spec_save_sql(spec_lower(title@)) + "%')"@,
        ItemData::Description(d) => "lower(description) "@ + n + "ILIKE '%"@ + spec_save_sql(
            spec_lower(d@),
        ) + "%'"@,
        ItemData::Type(t) => match t {
            IdOrValue::Value(q) => "typ "@ + n2 + "= (SELECT id FROM mtypes WHERE lower(name) = '"@
                + spec_save_sql(spec_lower(q@)) + "' LIMIT 1)"@,
            IdOrValue::Id(id) => "typ "@ + n2 + "= "@ + spec_i64_string(id as int),
        },
        ItemData::Year { eq, bigger, value } => "year "@ + spec_year(
            item.not,
            bigger,
            eq,
            spec_i64_string(value as int),
        ),
        ItemData::LatestChapter { eq, bigger, value } => "latest_chapter "@ + spec_year(
            item.not,
            bigger,
            eq,
            spec_i64_string(value as int),
        ),
        ItemData::Rating { eq, bigger, rating } => "bayesian_rating "@ + spec_year(
            item.not,
            bigger,
            eq,
            spec_centi_string(rating as int),
        ),
        ItemData::Genre(v) => (match v {
            IdOrValue::Value(q) => "(SELECT id FROM genres WHERE lower(name) = '"@ + spec_lower(q@)
                + "')"@,
            IdOrValue::Id(id) => spec_i64_string(id as int),
        }) + " = ANY(genres)"@,
        ItemData::Tag(v) => match v {
            IdOrValue::Value(q) => "tags && Array(SELECT id FROM tags WHERE lower(name) = '"@
                + spec_lower(q@) + "')"@,
            IdOrValue::Id(id) => spec_i64_string(id as int) + " = ANY(tags)"@,
        },
        ItemData::Licensed(l) => "licensed "@ + n2 + "= "@ + spec_bool_string(l),
        ItemData::Completed(c) => "completed "@ + n2 + "= "@ + spec_bool_string(c),
        ItemData::Author(a) => match a {
            IdOrValue::Value(v) => "author && Array(SELECT id FROM ppl WHERE lower(name) = '"@
                + spec_save_sql(spec_lower(v@)) + "')"@,
            IdOrValue::Id(id) => spec_i64_string(id as int) + " = ANY(author)"@,
        },
        ItemData::Artist(a) => match a {
            IdOrValue::Value(v) => "artist && Array(SELECT id FROM ppl WHERE lower(name) = '"@
                + spec_save_sql(spec_lower(v@)) + "')"@,
            IdOrValue::Id(id) => spec_i64_string(id as int) + " = ANY(artist)"@,
        },
        ItemData::Publisher { value, eng } => {
            let field = if eng {
                "publisher_english"@
            } else {
                "publisher_original"@
            };
            match value {
                IdOrValue::Value(v) => field + " && Array(SELECT id FROM ppl WHERE lower(name) = '"@
                    + spec_save_sql(spec_lower(v@)) + "')"@,
                IdOrValue::Id(id) => spec_i64_string(id as int) + " = ANY("@ + field + ")"@,
            }
        },
    }
}

impl Item {
    /// Writes the SQL condition of this item.
    #[verifier::rlimit(100)]
    pub fn to_sql(&self) -> (r: String)
        ensures
            r@ == spec_item_sql(*self),
    {
        let n: &str = if self.not {
            "not "
        } else {
            ""
        };
        let n2: &str = if self.not {
            "!"
        } else {
            ""
        };
        match &self.data {
            ItemData::Id(id) => String::from_str("id ").concat(n2).concat("= ").concat(
                i64_to_string(*id as i64).as_str(),
            ),
            ItemData::Pid(id) => String::from_str("private_id ").concat(n2).concat("= ").concat(
                i64_to_string(*id as i64).as_str(),
            ),
            ItemData::PublicId(id) => String::from_str("public_id ").concat(n2).concat(
                "= ",
            ).concat(i64_to_string(*id).as_str()),
            ItemData::ForumId(id) => String::from_str("forum_id ").concat(n2).concat("= ").concat(
                i64_to_string(*id).as_str(),
            ),
            ItemData::Key(key) => String::from_str("url_key ").concat(n2).concat("= ").concat(
                key.as_str(),
            ),
            ItemData::Title(title) => String::from_str(n).concat(
                "EXISTS(SELECT 1 FROM unnest(titles) as element WHERE lower(element) ILIKE '%",
            ).concat(save_sql_str(lower_str(title.as_str()).as_str()).as_str()).concat("%')"),
            ItemData::Description(d) => String::from_str("lower(description) ").concat(n).concat(
                "ILIKE '%",
            ).concat(save_sql_str(lower_str(d.as_str()).as_str()).as_str()).concat("%'"),
            ItemData::Type(t) => match t {
                IdOrValue::Value(q) => String::from_str("typ ").concat(n2).concat(
                    "= (SELECT id FROM mtypes WHERE lower(name) = '",
                ).concat(save_sql_str(lower_str(q.as_str()).as_str()).as_str()).concat(
                    "' LIMIT 1)",
                ),
                IdOrValue::Id(id) => String::from_str("typ ").concat(n2).concat("= ").concat(
                    i64_to_string(*id as i64).as_str(),
                ),
            },
            ItemData::Year { eq, bigger, value } => String::from_str("year ").concat(
                year(self.not, *bigger, *eq, i64_to_string(*value as i64).as_str()).as_str(),
            ),
            ItemData::LatestChapter { eq, bigger, value } => String::from_str(
                "latest_chapter ",
            ).concat(year(self.not, *bigger, *eq, i64_to_string(*value as i64).as_str()).as_str()),
            ItemData::Rating { eq, bigger, rating } => String::from_str("bayesian_rating ").concat(
                year(self.not, *bigger, *eq, centi_to_string(*rating).as_str()).as_str(),
            ),
            ItemData::Genre(v) => match v {
                IdOrValue::Value(q) => String::from_str(
                    "(SELECT id FROM genres WHERE lower(name) = '",
                ).concat(lower_str(q.as_str()).as_str()).concat("')").concat(" = ANY(genres)"),
                IdOrValue::Id(id) => i64_to_string(*id as i64).concat(" = ANY(genres)"),
            },
            ItemData::Tag(v) => match v {
                IdOrValue::Value(q) => String::from_str(
                    "tags && Array(SELECT id FROM tags WHERE lower(name) = '",
                ).concat(lower_str(q.as_str()).as_str()).concat("')"),
                IdOrValue::Id(id) => i64_to_string(*id as i64).concat(" = ANY(tags)"),
            },
            ItemData::Licensed(l) => String::from_str("licensed ").concat(n2).concat("= ").concat(
                if *l {
                    "true"
                } else {
                    "false"
                },
            ),
            ItemData::Completed(c) => String::from_str("completed ").concat(n2).concat(
                "= ",
            ).concat(
                if *c {
                    "true"
                } else {
                    "false"
                },
            ),
            ItemData::Author(a) => match a {
                IdOrValue::Value(v) => String::from_str(
                    "author && Array(SELECT id FROM ppl WHERE lower(name) = '",
                ).concat(save_sql_str(lower_str(v.as_str()).as_str()).as_str()).concat("')"),
                IdOrValue::Id(id) => i64_to_string(*id as i64).concat(" = ANY(author)"),
            },
            ItemData::Artist(a) => match a {
                IdOrValue::Value(v) => String::from_str(
                    "artist && Array(SELECT id FROM ppl WHERE lower(name) = '",
                ).concat(save_sql_str(lower_str(v.as_str()).as_str()).as_str()).concat("')"),
                IdOrValue::Id(id) => i64_to_string(*id as i64).concat(" = ANY(artist)"),
            },
            ItemData::Publisher { value, eng } => {
                let field: &str = if *eng {
                    "publisher_english"
                } else {
                    "publisher_original"
                };
                match value {
                    IdOrValue::Value(v) => String::from_str(field).concat(
                        " && Array(SELECT id FROM ppl WHERE lower(name) = '",
                    ).concat(save_sql_str(lower_str(v.as_str()).as_str()).as_str()).concat("')"),
                    IdOrValue::Id(id) => i64_to_string(*id as i64).concat(" = ANY(").concat(
                        field,
                    ).concat(")"),
                }
            },
        }
    }
}

/// The renderings of a group's entries, in order, entries that render to
/// nothing left out.
pub open spec fn spec_parts_from(a: Array, i: int) -> Seq<Seq<char>>
    decreases a, a.items@.len() - i,
{
    if i < 0 || i >= a.items@.len() {
        Seq::empty()
    } else {
        (match spec_group_sql(a.items@[i]) {
            Option::Some(p) => seq![p],
            Option::None => Seq::empty(),
        }) + spec_parts_from(a, i + 1)
    }
}

/// The parts joined with the separator.
pub open spec fn spec_join(parts: Seq<Seq<char>>, sep: Seq<char>) -> Seq<char>
    decreases parts.len(),
{
    if parts.len() == 0 {
        Seq::empty()
    } else if parts.len() == 1 {
        parts[0]
    } else {
        parts[0] + sep + spec_join(parts.drop_first(), sep)
    }
}

/// The SQL condition of a group: its entries joined by `or` or `and`,
/// parenthesized when more than one; a group whose entries all render to
/// nothing renders to nothing.
pub open spec fn spec_array_sql(a: Array) -> Option<Seq<char>>
    decreases a, a.items@.len() + 1,
{
    let parts = spec_parts_from(a, 0);
    if parts.len() == 0 {
        Option::None
    } else {
        let joined = spec_join(
            parts,
            if a.or {
                " or "@
            } else {
                " and "@
            },
        );
        if parts.len() == 1 {
            Option::Some(joined)
        } else {
            Option::Some("("@ + joined + ")"@)
        }
    }
}

/// The SQL condition of an entry: an item's condition, or a nested group's.
pub open spec fn spec_group_sql(x: ItemOrArray) -> Option<Seq<char>>
    decreases x,
{
    match x {
        ItemOrArray::Item(it) => Option::Some(spec_item_sql(it)),
        ItemOrArray::Array(a) => spec_array_sql(a),
    }
}

/// Joining one more part appends a separator and the part.
proof fn lemma_join_snoc(parts: Seq<Seq<char>>, x: Seq<char>, sep: Seq<char>)
    requires
        parts.len() >= 1,
    ensures
        spec_join(parts.push(x), sep) == spec_join(parts, sep) + sep + x,
    decreases parts.len(),
{
    if parts.len() == 1 {
        assert(parts.push(x)[0] == parts[0]);
        assert(parts.push(x).drop_first() =~= seq![x]);
        assert(spec_join(seq![x], sep) == x);
        assert(spec_join(parts.push(x), sep) =~= parts[0] + sep + x);
        assert(spec_join(parts, sep) + sep + x =~= parts[0] + sep + x);
    } else {
        lemma_join_snoc(parts.drop_first(), x, sep);
        assert(parts.push(x).drop_first() =~= parts.drop_first().push(x));
        assert(parts.push(x)[0] == parts[0]);
        assert((parts[0] + sep + (spec_join(parts.drop_first(), sep) + sep + x)) =~= (parts[0] + sep
            + spec_join(parts.drop_first(), sep)) + sep + x);
    }
}

impl ItemOrArray {
    /// Writes the SQL condition of this entry, when it renders to anything.
    pub fn to_sql(&self) -> (r: Option<String>)
        ensures
            match r {
                Option::Some(s) => spec_group_sql(*self) == Option::Some(s@),
                Option::None => spec_group_sql(*self) is None,
            },
        decreases *self,
    {
        match self {
            ItemOrArray::Item(it) => Some(it.to_sql()),
            ItemOrArray::Array(a) => a.to_sql(),
        }
    }
}

impl Array {
    /// Writes the SQL condition of this group, when any entry renders to
    /// anything.
    #[verifier::loop_isolation(false)]
    #[verifier::rlimit(100)]
    pub fn to_sql(&self) -> (r: Option<String>)
        ensures
            match r {
                Option::Some(s) => spec_array_sql(*self) == Option::Some(s@),
                Option::None => spec_array_sql(*self) is None,
            },
        decreases *self,
    {
        let n = self.items.len();
        let mut parts: Vec<String> = Vec::new();
        let mut i: usize = 0;
        proof {
            assert(parts.deep_view() =~= Seq::<Seq<char>>::empty());
            assert(Seq::<Seq<char>>::empty() + spec_parts_from(*self, 0) =~= spec_parts_from(
                *self,
                0,
            ));
        }
        while i < n
            invariant
                0 <= i <= n,
                n == self.items@.len(),
                spec_parts_from(*self, 0) == parts.deep_view() + spec_parts_from(*self, i as int),
            decreases n - i,
        {
            let entry = &self.items[i];
            proof {
                assert(self.items@[i as int] == *entry);
            }
            match entry.to_sql() {
                Some(p) => {
                    let ghost before = parts.deep_view();
                    parts.push(p);
                    proof {
                        assert(parts.deep_view() =~= before.push(p@));
                        assert(seq![p@] + spec_parts_from(*self, i + 1) =~= spec_parts_from(
                            *self,
                            i as int,
                        ));
                        assert(before.push(p@) + spec_parts_from(*self, i + 1) =~= before + (
                        seq![p@] + spec_parts_from(*self, i + 1)));
                    }
                },
                None => {
                    proof {
                        assert(Seq::<Seq<char>>::empty() + spec_parts_from(*self, i + 1)
                            =~= spec_parts_from(*self, i as int));
                    }
                },
            }
            i = i + 1;
        }
        proof {
            assert(spec_parts_from(*self, n as int) =~= Seq::<Seq<char>>::empty());
            assert(parts.deep_view() + Seq::<Seq<char>>::empty() =~= parts.deep_view());
        }
        let m = parts.len();
        if m == 0 {
            return None;
        }
        let sep: &str = if self.or {
            " or "
        } else {
            " and "
        };
        let mut joined = parts[0].clone();
        proof {
            assert(parts.deep_view()[0] == parts@[0]@);
            assert(parts.deep_view().take(1) =~= seq![parts.deep_view()[0]]);
            assert(spec_join(parts.deep_view().take(1), sep@) == parts.deep_view()[0]);
        }
        let mut k: usize = 1;
        while k < m
            invariant
                1 <= k <= m,
                m == parts@.len(),
                joined@ == spec_join(parts.deep_view().take(k as int), sep@),
            decreases m - k,
        {
            proof {
                assert(parts.deep_view()[k as int] == parts@[k as int]@);
                lemma_join_snoc(parts.deep_view().take(k as int), parts.deep_view()[k as int], sep@);
                assert(parts.deep_view().take(k + 1) =~= parts.deep_view().take(k as int).push(
                    parts.deep_view()[k as int],
                ));
            }
            joined = joined.concat(sep).concat(parts[k].as_str());
            k = k + 1;
        }
        proof {
            assert(parts.deep_view().take(m as int) =~= parts.deep_view());
        }
        if m == 1 {
            Some(joined)
        } else {
            Some(String::from_str("(").concat(joined.as_str()).concat(")"))
        }
    }
}

impl SearchRequest {
    /// Writes the whole SQL statement of this request.
    pub fn to_sql(&self) -> (r: String)
        ensures
            r@ == "SELECT * FROM info"@ + (match spec_array_sql(self.data) {
                Option::Some(q) => " WHERE "@ + q,
                Option::None => Seq::<char>::empty(),
            }) + ";"@,
    {
        proof {
            reveal_strlit("");
            assert(""@ =~= Seq::<char>::empty());
        }
        let head = String::from_str("SELECT * FROM info");
        let with_query = match self.data.to_sql() {
            Some(q) => head.concat(" WHERE ").concat(q.as_str()),
            None => head.concat(""),
        };
        with_query.concat(";")
    }
}

} // verus!
