//! Spending categories: keyword rules, tried in order, over the lowercased
//! description.
use vstd::prelude::*;

use crate::text::{chars_of, contains_chars, contains_text, lowercase, str_to_lowercase};

verus! {

/// The number of keyword rules; a description that no rule matches falls in
/// the catch-all category.
pub const RULE_COUNT: usize = 7;

/// The keywords of rule `i`, all in lower case.
pub open spec fn rule_keywords(i: int) -> Seq<Seq<char>> {
    if i == 0 {
        seq![
            "地铁"@, "公交"@, "打车"@, "滴滴"@, "出租"@, "网约"@, "高铁"@, "机票"@, "加油"@,
            "uber"@, "taxi"@, "metro"@,
        ]
    } else if i == 1 {
        seq!["房租"@, "物业"@, "水费"@, "电费"@, "燃气"@, "宽带"@, "rent"@, "utility"@]
    } else if i == 2 {
        seq![
            "外卖"@, "美团"@, "饿了么"@, "餐"@, "饭"@, "咖啡"@, "星巴克"@, "luckin"@, "超市"@,
            "买菜"@, "food"@, "grocery"@,
        ]
    } else if i == 3 {
        seq![
            "药"@, "医院"@, "门诊"@, "体检"@, "诊所"@, "卫生"@, "疫苗"@, "pharmacy"@, "clinic"@,
        ]
    } else if i == 4 {
        seq!["电影"@, "游戏"@, "会员"@, "视频"@, "演出"@, "健身"@, "netflix"@, "steam"@]
    } else if i == 5 {
        seq![
            "衣服"@, "数码"@, "手机"@, "电脑"@, "日用"@, "淘宝"@, "京东"@, "拼多多"@, "shop"@,
            "store"@,
        ]
    } else {
        seq!["学费"@, "书"@, "课程"@, "培训"@, "book"@]
    }
}

/// The category that rule `i` assigns; `RULE_COUNT` names the catch-all.
pub open spec fn category_name(i: int) -> Seq<char> {
    if i == 0 {
        "交通"@
    } else if i == 1 {
        "居住"@
    } else if i == 2 {
        "餐饮"@
    } else if i == 3 {
        "医疗"@
    } else if i == 4 {
        "娱乐"@
    } else if i == 5 {
        "购物"@
    } else if i == 6 {
        "教育"@
    } else {
        "其他"@
    }
}

/// Rule `i` matches when one of its keywords occurs in the text.
pub open spec fn rule_matches(lowered: Seq<char>, i: int) -> bool {
    exists|k: int| 0 <= k < rule_keywords(i).len() && contains_text(lowered, #[trigger] rule_keywords(i)[k])
}

/// The category of the first rule from `i` on that matches, or the
/// catch-all when none does.
pub open spec fn category_from(lowered: Seq<char>, i: int) -> Seq<char>
    decreases RULE_COUNT - i,
{
    if i < 0 || i >= RULE_COUNT {
        category_name(RULE_COUNT as int)
    } else if rule_matches(lowered, i) {
        category_name(i)
    } else {
        category_from(lowered, i + 1)
    }
}

/// The category of an already lowercased description: the first matching
/// rule wins.
pub open spec fn category_of(lowered: Seq<char>) -> Seq<char> {
    category_from(lowered, 0)
}

/// One of the eight category names.
pub open spec fn is_category(c: Seq<char>) -> bool {
    exists|i: int| 0 <= i <= RULE_COUNT && c == #[trigger] category_name(i)
}

/// Whatever the description, the category is one of the eight names: a
/// description is never left without one.
pub proof fn lemma_category_is_known(lowered: Seq<char>, i: int)
    ensures
        is_category(category_from(lowered, i)),
    decreases RULE_COUNT - i,
{
    if i < 0 || i >= RULE_COUNT {
        assert(category_name(RULE_COUNT as int) == category_from(lowered, i));
    } else if rule_matches(lowered, i) {
        assert(category_name(i) == category_from(lowered, i));
    } else {
        lemma_category_is_known(lowered, i + 1);
    }
}

fn rule_keywords_exec(i: usize) -> (ks: Vec<&'static str>)
    requires
        i < RULE_COUNT,
    ensures
        ks.len() == rule_keywords(i as int).len(),
        forall|k: int| 0 <= k < ks.len() ==> (#[trigger] ks[k])@ == rule_keywords(i as int)[k],
{
    let ks = if i == 0 {
        vec![
            "地铁", "公交", "打车", "滴滴", "出租", "网约", "高铁", "机票", "加油", "uber", "taxi",
            "metro",
        ]
    } else if i == 1 {
        vec!["房租", "物业", "水费", "电费", "燃气", "宽带", "rent", "utility"]
    } else if i == 2 {
        vec![
            "外卖", "美团", "饿了么", "餐", "饭", "咖啡", "星巴克", "luckin", "超市", "买菜", "food",
            "grocery",
        ]
    } else if i == 3 {
        vec!["药", "医院", "门诊", "体检", "诊所", "卫生", "疫苗", "pharmacy", "clinic"]
    } else if i == 4 {
        vec!["电影", "游戏", "会员", "视频", "演出", "健身", "netflix", "steam"]
    } else if i == 5 {
        vec!["衣服", "数码", "手机", "电脑", "日用", "淘宝", "京东", "拼多多", "shop", "store"]
    } else {
        vec!["学费", "书", "课程", "培训", "book"]
    };
    ks
}

fn category_name_exec(i: usize) -> (c: &'static str)
    ensures
        c@ == category_name(i as int),
{
    if i == 0 {
        "交通"
    } else if i == 1 {
        "居住"
    } else if i == 2 {
        "餐饮"
    } else if i == 3 {
        "医疗"
    } else if i == 4 {
        "娱乐"
    } else if i == 5 {
        "购物"
    } else if i == 6 {
        "教育"
    } else {
        "其他"
    }
}

/// The category of a description that is already in lower case.
pub fn categorize_lowered(lowered: &str) -> (c: &'static str)
    ensures
        c@ == category_of(lowered@),
        is_category(c@),
{
    proof {
        lemma_category_is_known(lowered@, 0);
    }
    let text = chars_of(lowered);
    let mut i: usize = 0;
    while i < RULE_COUNT
        invariant
            0 <= i <= RULE_COUNT,
            text@ == lowered@,
            category_of(lowered@) == category_from(lowered@, i as int),
        decreases RULE_COUNT - i,
    {
        let keywords = rule_keywords_exec(i);
        let mut k: usize = 0;
        while k < keywords.len()
            invariant
                0 <= k <= keywords.len(),
                i < RULE_COUNT,
                text@ == lowered@,
                category_of(lowered@) == category_from(lowered@, i as int),
                keywords.len() == rule_keywords(i as int).len(),
                forall|m: int| 0 <= m < keywords.len() ==> (#[trigger] keywords[m])@ == rule_keywords(i as int)[m],
                forall|m: int| 0 <= m < k ==> !contains_text(lowered@, #[trigger] rule_keywords(i as int)[m]),
            decreases keywords.len() - k,
        {
            let needle = chars_of(keywords[k]);
            if contains_chars(&text, &needle) {
                assert(contains_text(lowered@, rule_keywords(i as int)[k as int]));
                assert(rule_matches(lowered@, i as int));
                return category_name_exec(i);
            }
            k = k + 1;
        }
        assert(!rule_matches(lowered@, i as int));
        i = i + 1;
    }
    category_name_exec(RULE_COUNT)
}

/// Maps a description to a spending category by keyword: the description is
/// lowercased, and the first rule with a keyword in it wins; a description
/// that no rule matches falls in the catch-all category.
pub fn categorize(description: &str) -> (c: &'static str)
    ensures
        c@ == category_of(lowercase(description@)),
        is_category(c@),
{
    let lowered = str_to_lowercase(description);
    categorize_lowered(lowered.as_str())
}


/// Some word of `words` occurs in `text`.
pub open spec fn contains_any(text: Seq<char>, words: Seq<Seq<char>>) -> bool {
    exists|k: int| 0 <= k < words.len() && contains_text(text, #[trigger] words[k])
}

/// Law: the rule table. A lowercased description that holds a keyword of a
/// rule, and none of any earlier rule, gets that rule's category: transport
/// (交通), housing (居住), food (餐饮), health (医疗), entertainment (娱乐),
/// shopping (购物), education (教育), in this order; one that holds no
/// keyword at all gets 其他.
pub proof fn lemma_rule_table(lowered: Seq<char>)
    ensures
        category_of(lowered) == (
            if contains_any(
                lowered,
                seq![
                    "地铁"@,
                    "公交"@,
                    "打车"@,
                    "滴滴"@,
                    "出租"@,
                    "网约"@,
                    "高铁"@,
                    "机票"@,
                    "加油"@,
                    "uber"@,
                    "taxi"@,
                    "metro"@,
                ],
            ) {
                "交通"@
            } else if contains_any(
                lowered,
                seq![
                    "房租"@,
                    "物业"@,
                    "水费"@,
                    "电费"@,
                    "燃气"@,
                    "宽带"@,
                    "rent"@,
                    "utility"@,
                ],
            ) {
                "居住"@
            } else if contains_any(
                lowered,
                seq![
                    "外卖"@,
                    "美团"@,
                    "饿了么"@,
                    "餐"@,
                    "饭"@,
                    "咖啡"@,
                    "星巴克"@,
                    "luckin"@,
                    "超市"@,
                    "买菜"@,
                    "food"@,
                    "grocery"@,
                ],
            ) {
                "餐饮"@
            } else if contains_any(
                lowered,
                seq![
                    "药"@,
                    "医院"@,
                    "门诊"@,
                    "体检"@,
                    "诊所"@,
                    "卫生"@,
                    "疫苗"@,
                    "pharmacy"@,
                    "clinic"@,
                ],
            ) {
                "医疗"@
            } else if contains_any(
                lowered,
                seq![
                    "电影"@,
                    "游戏"@,
                    "会员"@,
                    "视频"@,
                    "演出"@,
                    "健身"@,
                    "netflix"@,
                    "steam"@,
                ],
            ) {
                "娱乐"@
            } else if contains_any(
                lowered,
                seq![
                    "衣服"@,
                    "数码"@,
                    "手机"@,
                    "电脑"@,
                    "日用"@,
                    "淘宝"@,
                    "京东"@,
                    "拼多多"@,
                    "shop"@,
                    "store"@,
                ],
            ) {
                "购物"@
            } else if contains_any(
                lowered,
                seq![
                    "学费"@,
                    "书"@,
                    "课程"@,
                    "培训"@,
                    "book"@,
                ],
            ) {
                "教育"@
            } else {
                "其他"@
            }
        ),
{
    assert(rule_keywords(0) =~= seq![
        "地铁"@,
        "公交"@,
        "打车"@,
        "滴滴"@,
        "出租"@,
        "网约"@,
        "高铁"@,
        "机票"@,
        "加油"@,
        "uber"@,
        "taxi"@,
        "metro"@,
    ]);
    assert(rule_keywords(1) =~= seq![
        "房租"@,
        "物业"@,
        "水费"@,
        "电费"@,
        "燃气"@,
        "宽带"@,
        "rent"@,
        "utility"@,
    ]);
    assert(rule_keywords(2) =~= seq![
        "外卖"@,
        "美团"@,
        "饿了么"@,
        "餐"@,
        "饭"@,
        "咖啡"@,
        "星巴克"@,
        "luckin"@,
        "超市"@,
        "买菜"@,
        "food"@,
        "grocery"@,
    ]);
    assert(rule_keywords(3) =~= seq![
        "药"@,
        "医院"@,
        "门诊"@,
        "体检"@,
        "诊所"@,
        "卫生"@,
        "疫苗"@,
        "pharmacy"@,
        "clinic"@,
    ]);
    assert(rule_keywords(4) =~= seq![
        "电影"@,
        "游戏"@,
        "会员"@,
        "视频"@,
        "演出"@,
        "健身"@,
        "netflix"@,
        "steam"@,
    ]);
    assert(rule_keywords(5) =~= seq![
        "衣服"@,
        "数码"@,
        "手机"@,
        "电脑"@,
        "日用"@,
        "淘宝"@,
        "京东"@,
        "拼多多"@,
        "shop"@,
        "store"@,
    ]);
    assert(rule_keywords(6) =~= seq![
        "学费"@,
        "书"@,
        "课程"@,
        "培训"@,
        "book"@,
    ]);
    assert(category_of(lowered) == category_from(lowered, 0));
    assert(category_from(lowered, 0) == if rule_matches(lowered, 0) { category_name(0) } else { category_from(lowered, 1) });
    assert(category_from(lowered, 1) == if rule_matches(lowered, 1) { category_name(1) } else { category_from(lowered, 2) });
    assert(category_from(lowered, 2) == if rule_matches(lowered, 2) { category_name(2) } else { category_from(lowered, 3) });
    assert(category_from(lowered, 3) == if rule_matches(lowered, 3) { category_name(3) } else { category_from(lowered, 4) });
    assert(category_from(lowered, 4) == if rule_matches(lowered, 4) { category_name(4) } else { category_from(lowered, 5) });
    assert(category_from(lowered, 5) == if rule_matches(lowered, 5) { category_name(5) } else { category_from(lowered, 6) });
    assert(category_from(lowered, 6) == if rule_matches(lowered, 6) { category_name(6) } else { category_from(lowered, 7) });
    assert(category_from(lowered, 7) == category_name(7));
}

} // verus!
