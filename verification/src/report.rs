//! Reports on a graph, as lines of text.
use vstd::prelude::*;

use crate::graph::KnowledgeGraph;
use crate::model::{MaterialId, MaterialKind};
use crate::order::sort_positions;
use crate::text::{chars_of, decimal_string, joined, same};

verus! {

/// Three digits, with zeros in front.
pub open spec fn three_digits(n: nat) -> Seq<char> {
    seq![
        crate::text::digit(n / 100 % 10),
        crate::text::digit(n / 10 % 10),
        crate::text::digit(n % 10),
    ]
}

/// A number with a comma between each three digits.
pub open spec fn grouped(n: nat) -> Seq<char>
    decreases n,
{
    if n < 1000 {
        crate::text::decimal(n)
    } else {
        grouped(n / 1000) + ","@ + three_digits(n % 1000)
    }
}

fn group_digits(n: u64) -> (r: String)
    ensures
        r@ == grouped(n as nat),
    decreases n,
{
    if n < 1000 {
        decimal_string(n)
    } else {
        let mut r = group_digits(n / 1000);
        let ghost start = r@;
        let rest: u64 = n % 1000;
        r.append(",");
        r.append(decimal_string(rest / 100).as_str());
        r.append(decimal_string(rest / 10 % 10).as_str());
        r.append(decimal_string(rest % 10).as_str());
        assert(r@ =~= start + ","@ + three_digits(rest as nat));
        r
    }
}

/// A number with a comma between each three digits.
pub fn fmt_num(n: usize) -> (r: String)
    ensures
        r@ == grouped(n as nat),
{
    group_digits(n as u64)
}

/// The kind of a word; only items and fluids have one.
pub open spec fn kind_named(word: Seq<char>) -> Option<MaterialKind> {
    if word == "item"@ {
        Some(MaterialKind::Item)
    } else if word == "fluid"@ {
        Some(MaterialKind::Fluid)
    } else {
        None
    }
}

/// The kind of a word; only items and fluids have one.
pub fn kind_from_str(s: &str) -> (r: Option<MaterialKind>)
    ensures
        r == kind_named(s@),
{
    if same(s, "item") {
        Some(MaterialKind::Item)
    } else if same(s, "fluid") {
        Some(MaterialKind::Fluid)
    } else {
        None
    }
}

/// Blanks up to a width.
pub open spec fn blanks(len: nat, width: nat) -> Seq<char> {
    Seq::new(
        if width > len {
            (width - len) as nat
        } else {
            0
        },
        |i: int| ' ',
    )
}

/// A text with blanks behind it, to a width.
pub open spec fn left(text: Seq<char>, width: nat) -> Seq<char> {
    text + blanks(text.len(), width)
}

/// A text with blanks before it, to a width.
pub open spec fn right(text: Seq<char>, width: nat) -> Seq<char> {
    blanks(text.len(), width) + text
}

fn add_blanks(r: &mut String, len: usize, width: usize)
    ensures
        final(r)@ == old(r)@ + blanks(len as nat, width as nat),
{
    let ghost start = r@;
    let mut k: usize = len;
    assert(r@ =~= start + Seq::new(0, |i: int| ' '));
    while k < width
        invariant
            len <= k,
            k <= width || k == len,
            r@ == start + Seq::new((k - len) as nat, |i: int| ' '),
        decreases width - k,
    {
        r.push(' ');
        k += 1;
        assert(r@ =~= start + Seq::new((k - len) as nat, |i: int| ' '));
    }
}

fn add_left(r: &mut String, text: &str, width: usize)
    ensures
        final(r)@ == old(r)@ + left(text@, width as nat),
{
    let ghost start = r@;
    let len: usize = chars_of(text).len();
    r.append(text);
    add_blanks(r, len, width);
    assert(r@ =~= start + left(text@, width as nat));
}

fn add_right(r: &mut String, text: &str, width: usize)
    ensures
        final(r)@ == old(r)@ + right(text@, width as nat),
{
    let ghost start = r@;
    let len: usize = chars_of(text).len();
    add_blanks(r, len, width);
    r.append(text);
    assert(r@ =~= start + right(text@, width as nat));
}

/// Categories with more recipes first.
pub open spec fn size_order(g: KnowledgeGraph) -> spec_fn(int, int) -> bool {
    |i: int, j: int| g.categories@[i].recipe_count > g.categories@[j].recipe_count
}

/// The line of a category.
pub open spec fn category_line(g: KnowledgeGraph, c: int) -> Seq<char> {
    let cat = g.categories@[c];
    right(grouped(cat.recipe_count as nat), 7) + "  "@ + left(cat.ty@, 45) + " "@ + cat.title@
}

/// The lines of the categories with the most recipes, at most `top`. Categories of
/// one size stay in their order.
pub open spec fn top_lines(g: KnowledgeGraph, top: nat, lines: Seq<Seq<char>>) -> bool {
    exists|p: Seq<usize>| #[trigger]
        crate::order::stable_order(size_order(g), g.categories@.len() as int, p) && lines
            == Seq::new(
            if p.len() < top {
                p.len()
            } else {
                top
            },
            |i: int| category_line(g, p[i] as int),
        )
}

/// The lines of the categories with the most recipes, at most `top`.
pub fn top_categories(g: &KnowledgeGraph, top: usize) -> (r: Vec<String>)
    ensures
        top_lines(*g, top as nat, crate::intern::texts(r@)),
{
    let ghost before = size_order(*g);
    let less = |i: usize, j: usize| -> (b: bool)
        requires
            i < g.categories@.len() && j < g.categories@.len(),
        ensures
            b == (g.categories@[i as int].recipe_count > g.categories@[j as int].recipe_count),
        { g.categories[i].recipe_count > g.categories[j].recipe_count };
    let p = sort_positions(g.categories.len(), less, Ghost(before));
    let mut r: Vec<String> = Vec::new();
    let mut i: usize = 0;
    while i < p.len() && i < top
        invariant
            i <= p@.len(),
            i <= top,
            crate::order::stable_order(before, g.categories@.len() as int, p@),
            r@.len() == i,
            forall|k: int| 0 <= k < i ==> (#[trigger] r@[k])@ == category_line(*g, p@[k] as int),
        decreases p@.len() - i,
    {
        let c = &g.categories[p[i]];
        let mut line = String::new();
        add_right(&mut line, fmt_num(c.recipe_count).as_str(), 7);
        line.append("  ");
        add_left(&mut line, c.ty.as_str(), 45);
        line.append(" ");
        line.append(c.title.as_str());
        assert(line@ =~= category_line(*g, p@[i as int] as int));
        r.push(line);
        i += 1;
    }
    assert(crate::intern::texts(r@) =~= Seq::new(
        if p@.len() < top {
            p@.len()
        } else {
            top as nat
        },
        |k: int| category_line(*g, p@[k] as int),
    ));
    r
}

/// A count, with the count that the export gives beside it.
pub open spec fn count_line(label: Seq<char>, n: nat, summary: Option<u64>) -> Seq<char> {
    match summary {
        Some(s) => label + grouped(n) + " (JSON summary: "@ + grouped(s as nat) + ")"@,
        None => label + grouped(n),
    }
}

/// The line of a hit of a search.
pub open spec fn hit_line(g: KnowledgeGraph, m: MaterialId) -> Seq<char> {
    let info = g.materials@[m as int];
    left(g.kind_text(info.key.kind), 8) + " "@ + left(g.id_text(m), 45) + " "@ + right(
        crate::text::decimal(g.producers@[m as int]@.len()),
        6,
    ) + " "@ + right(crate::text::decimal(g.consumers@[m as int]@.len()), 6) + "  "@
        + info.display@ + if info.key.nbt is Some {
        " [NBT]"@
    } else {
        Seq::<char>::empty()
    }
}

/// The line of a hit of a search.
pub fn show_hit(g: &KnowledgeGraph, m: MaterialId) -> (r: String)
    requires
        g.wf(),
        m < g.m_count(),
    ensures
        r@ == hit_line(*g, m),
{
    let info = g.material(m);
    assert(g.key_ok(info.key));
    let mut r = String::new();
    add_left(&mut r, g.kind_str(info.key.kind), 8);
    r.append(" ");
    add_left(&mut r, g.material_id_str(m), 45);
    r.append(" ");
    add_right(&mut r, decimal_string(g.producers[m as usize].len() as u64).as_str(), 6);
    r.append(" ");
    add_right(&mut r, decimal_string(g.consumers[m as usize].len() as u64).as_str(), 6);
    r.append("  ");
    r.append(info.display.as_str());
    if info.key.nbt.is_some() {
        r.append(" [NBT]");
    }
    assert(r@ =~= hit_line(*g, m));
    r
}

/// The heading of the hits of a search.
pub open spec fn hit_heading() -> Seq<char> {
    left("类型"@, 8) + " "@ + left("ID"@, 45) + " "@ + right("生产者"@, 6) + " "@ + right(
        "消费者"@,
        6,
    ) + "  名称"@
}

/// The heading of the hits of a search.
pub fn show_heading() -> (r: String)
    ensures
        r@ == hit_heading(),
{
    let mut r = String::new();
    add_left(&mut r, "类型", 8);
    r.append(" ");
    add_left(&mut r, "ID", 45);
    r.append(" ");
    add_right(&mut r, "生产者", 6);
    r.append(" ");
    add_right(&mut r, "消费者", 6);
    r.append("  名称");
    assert(r@ =~= hit_heading());
    r
}

/// A count, with the count that the export gives beside it.
pub fn show_count(label: &str, n: usize, summary: Option<u64>) -> (r: String)
    ensures
        r@ == count_line(label@, n as nat, summary),
{
    let start = joined(label, fmt_num(n).as_str());
    match summary {
        Some(s) => {
            let middle = joined(start.as_str(), " (JSON summary: ");
            let end = joined(middle.as_str(), group_digits(s).as_str());
            joined(end.as_str(), ")")
        },
        None => start,
    }
}

/// The summary of an export, if it gives both counts.
pub open spec fn summary_of(g: KnowledgeGraph) -> (Option<u64>, Option<u64>) {
    match (g.meta.summary_category_count, g.meta.summary_recipe_count) {
        (Some(c), Some(r)) => (Some(c), Some(r)),
        _ => (None, None),
    }
}

/// The report on a data set, but for its categories.
pub open spec fn stats_text(g: KnowledgeGraph) -> Seq<Seq<char>> {
    let m = g.meta;
    let s = g.stats;
    let (c, r) = summary_of(g);
    seq![
        "== 数据集 =="@,
        "format          "@ + m.format@ + " v"@ + crate::text::decimal(m.version as nat),
        "minecraft       "@ + m.minecraft_version@,
        "exported_at     "@ + m.exported_at@,
        "include_hidden  "@ + if m.include_hidden {
            "true"@
        } else {
            "false"@
        },
        ""@,
        "== 分类 / 配方 =="@,
        count_line("分类            "@, s.category_count as nat, c),
        count_line("配方            "@, s.recipe_count as nat, r),
        "信息类(空)配方  "@ + grouped(s.empty_recipe_count as nat),
        ""@,
        "== 材料 =="@,
        "材料总数        "@ + grouped(s.material_count as nat) + "  (item "@ + grouped(
            s.item_count as nat,
        ) + " / fluid "@ + grouped(s.fluid_count as nat) + " / other "@ + grouped(
            s.other_count as nat,
        ) + ")"@,
        "NBT 变体        "@ + grouped(s.nbt_variant_count as nat),
        "消耗/产出链接   "@ + grouped(s.consume_links as nat) + " / "@ + grouped(
            s.produce_links as nat,
        ),
        "原料(无生产者)  "@ + grouped(s.raw_material_count as nat),
        "叶子(无消费者)  "@ + grouped(s.leaf_material_count as nat),
    ]
}

/// The report on a data set, but for its categories.
pub fn stats_lines(g: &KnowledgeGraph) -> (r: Vec<String>)
    ensures
        crate::intern::texts(r@) == stats_text(*g),
{
    let m = &g.meta;
    let s = &g.stats;
    let (c, n): (Option<u64>, Option<u64>) = match (
        m.summary_category_count,
        m.summary_recipe_count,
    ) {
        (Some(c), Some(n)) => (Some(c), Some(n)),
        _ => (None, None),
    };
    let mut r: Vec<String> = Vec::new();
    r.push("== 数据集 ==".to_owned());
    let mut line = joined("format          ", m.format.as_str());
    line.append(" v");
    line.append(decimal_string(m.version as u64).as_str());
    r.push(line);
    r.push(joined("minecraft       ", m.minecraft_version.as_str()));
    r.push(joined("exported_at     ", m.exported_at.as_str()));
    r.push(
        joined(
            "include_hidden  ",
            if m.include_hidden {
                "true"
            } else {
                "false"
            },
        ),
    );
    r.push("".to_owned());
    r.push("== 分类 / 配方 ==".to_owned());
    r.push(show_count("分类            ", s.category_count, c));
    r.push(show_count("配方            ", s.recipe_count, n));
    r.push(joined("信息类(空)配方  ", fmt_num(s.empty_recipe_count).as_str()));
    r.push("".to_owned());
    r.push("== 材料 ==".to_owned());
    let mut line = joined("材料总数        ", fmt_num(s.material_count).as_str());
    line.append("  (item ");
    line.append(fmt_num(s.item_count).as_str());
    line.append(" / fluid ");
    line.append(fmt_num(s.fluid_count).as_str());
    line.append(" / other ");
    line.append(fmt_num(s.other_count).as_str());
    line.append(")");
    r.push(line);
    r.push(joined("NBT 变体        ", fmt_num(s.nbt_variant_count).as_str()));
    let mut line = joined("消耗/产出链接   ", fmt_num(s.consume_links).as_str());
    line.append(" / ");
    line.append(fmt_num(s.produce_links).as_str());
    r.push(line);
    r.push(joined("原料(无生产者)  ", fmt_num(s.raw_material_count).as_str()));
    r.push(joined("叶子(无消费者)  ", fmt_num(s.leaf_material_count).as_str()));
    assert(crate::intern::texts(r@) =~= stats_text(*g));
    r
}

/// The kind that a search is limited to.
pub open spec fn wanted_kind(word: Option<Seq<char>>) -> Option<MaterialKind> {
    match word {
        Some(w) => kind_named(w),
        None => None,
    }
}

/// The report on a search.
pub open spec fn find_text(g: KnowledgeGraph, query: Seq<char>, hits: Seq<MaterialId>) -> Seq<Seq<char>> {
    if hits.len() == 0 {
        seq!["没有匹配 \""@ + query + "\" 的材料"@]
    } else {
        seq![hit_heading()] + hits.map_values(|m: MaterialId| hit_line(g, m))
    }
}

/// The report on a search, and whether the word for the kind is unknown; such a
/// word is passed over.
pub fn find_lines(g: &KnowledgeGraph, query: &str, limit: usize, kind: Option<&str>) -> (r: (
    Vec<String>,
    bool,
))
    requires
        g.wf(),
    ensures
        exists|hits: Seq<MaterialId>| #[trigger]
            g.searches(
                query@,
                wanted_kind(crate::graph::str_text(kind)),
                limit as nat,
                hits,
            ) && crate::intern::texts(r.0@) == find_text(*g, query@, hits),
        r.1 == (kind is Some && wanted_kind(crate::graph::str_text(kind)) is None),
{
    let wanted = match kind {
        Some(word) => kind_from_str(word),
        None => None,
    };
    let unknown = kind.is_some() && wanted.is_none();
    let hits = g.search(query, wanted, limit);
    let mut r: Vec<String> = Vec::new();
    if hits.len() == 0 {
        let mut line = joined("没有匹配 \"", query);
        line.append("\" 的材料");
        r.push(line);
        assert(crate::intern::texts(r@) =~= find_text(*g, query@, hits@));
        return (r, unknown);
    }
    r.push(show_heading());
    let ghost lines = hits@.map_values(|m: MaterialId| hit_line(*g, m));
    let mut i: usize = 0;
    assert(crate::intern::texts(r@) =~= seq![hit_heading()] + lines.take(0));
    while i < hits.len()
        invariant
            i <= hits@.len(),
            g.wf(),
            forall|k: int| 0 <= k < hits@.len() ==> #[trigger] hits@[k] < g.m_count(),
            lines == hits@.map_values(|m: MaterialId| hit_line(*g, m)),
            crate::intern::texts(r@) == seq![hit_heading()] + lines.take(i as int),
        decreases hits@.len() - i,
    {
        let ghost before = crate::intern::texts(r@);
        assert(hits@[i as int] < g.m_count());
        let line = show_hit(g, hits[i]);
        let ghost shown = line@;
        r.push(line);
        i += 1;
        assert(crate::intern::texts(r@) =~= before.push(shown));
        assert(crate::intern::texts(r@) =~= seq![hit_heading()] + lines.take(i as int));
    }
    assert(lines.take(i as int) =~= lines);
    (r, unknown)
}

} // verus!
