//! Street entries, their deduplication per street, the classification of
//! each street's cells and the tab-separated rendering of the result.
use vstd::prelude::*;

use crate::order::{
    column_lt, column_text_lt, lemma_seq_lt_asymmetric, lemma_seq_lt_irreflexive, lemma_seq_lt_total,
    lemma_seq_lt_transitive,
    seq_lt, text_lt,
};
use crate::text::{decimal, decimal_text};

verus! {

/// A grid position as contracts see it: column label and row.
pub type PositionView = (Seq<char>, nat);

/// One street entry as contracts see it: street name and position.
pub type EntryView = (Seq<char>, PositionView);

/// Name of one street.
#[derive(Debug, Clone, PartialEq, Eq, Hash)]
pub struct StreetName(pub String);

impl View for StreetName {
    type V = Seq<char>;

    open spec fn view(&self) -> Seq<char> {
        self.0@
    }
}

impl StreetName {
    /// A copy of this name.
    pub fn copy(&self) -> (r: StreetName)
        ensures
            r@ == self@,
    {
        StreetName(self.0.clone())
    }

    /// The name as text.
    pub fn to_string(&self) -> (r: String)
        ensures
            r@ == self@,
    {
        self.0.clone()
    }
}

/// Grid position such as "A9", "B4" or similar. Rows count from 1.
#[derive(Debug, Clone, PartialEq, Eq, Hash)]
pub struct GridPosition {
    pub column: String,
    pub row: usize,
}

impl View for GridPosition {
    type V = PositionView;

    open spec fn view(&self) -> PositionView {
        (self.column@, self.row as nat)
    }
}

/// Order of grid positions: by column label (shorter first, then
/// lexicographically), then by row.
pub open spec fn position_lt(a: PositionView, b: PositionView) -> bool {
    column_lt(a.0, b.0) || (a.0 == b.0 && a.1 < b.1)
}

/// The text of a position: its column label followed by its row in decimal.
pub open spec fn position_text(p: PositionView) -> Seq<char> {
    p.0 + decimal(p.1)
}

/// The views of a sequence of positions.
pub open spec fn positions_view(s: Seq<GridPosition>) -> Seq<PositionView> {
    s.map_values(|p: GridPosition| p@)
}

impl GridPosition {
    /// A copy of this position.
    pub fn copy(&self) -> (r: GridPosition)
        ensures
            r@ == self@,
    {
        GridPosition { column: self.column.clone(), row: self.row }
    }

    /// Whether two positions are equal.
    pub fn same_as(&self, other: &GridPosition) -> (r: bool)
        ensures
            r == (self@ == other@),
    {
        self.row == other.row && self.column == other.column
    }

    /// Whether this position comes before `other`.
    pub fn less_than(&self, other: &GridPosition) -> (r: bool)
        ensures
            r == position_lt(self@, other@),
    {
        if column_text_lt(self.column.as_str(), other.column.as_str()) {
            true
        } else {
            self.row < other.row && self.column == other.column
        }
    }

    /// The position as text, such as "A9".
    pub fn to_string(&self) -> (r: String)
        ensures
            r@ == position_text(self@),
    {
        let mut s = self.column.clone();
        let row = decimal_text(self.row);
        s.append(row.as_str());
        s
    }
}

/// One street name in one grid position.
#[derive(Debug, Clone, PartialEq, Eq, Hash)]
pub struct InputStreetValue {
    pub street_name: StreetName,
    pub position: GridPosition,
}

impl View for InputStreetValue {
    type V = EntryView;

    open spec fn view(&self) -> EntryView {
        (self.street_name@, self.position@)
    }
}

/// The views of a sequence of street entries.
pub open spec fn entries_view(s: Seq<InputStreetValue>) -> Seq<EntryView> {
    s.map_values(|e: InputStreetValue| e@)
}

impl InputStreetValue {
    /// A copy of this entry.
    pub fn copy(&self) -> (r: InputStreetValue)
        ensures
            r@ == self@,
    {
        InputStreetValue { street_name: self.street_name.copy(), position: self.position.copy() }
    }
}


proof fn lemma_column_lt_transitive(a: Seq<char>, b: Seq<char>, c: Seq<char>)
    requires
        column_lt(a, b),
        column_lt(b, c),
    ensures
        column_lt(a, c),
{
    if a.len() == b.len() && b.len() == c.len() {
        lemma_seq_lt_transitive(a, b, c);
    }
}

/// No position comes before itself.
pub proof fn lemma_position_lt_irreflexive(a: PositionView)
    ensures
        !position_lt(a, a),
{
    lemma_seq_lt_irreflexive(a.0);
}

/// The order of positions is transitive.
pub proof fn lemma_position_lt_transitive(a: PositionView, b: PositionView, c: PositionView)
    requires
        position_lt(a, b),
        position_lt(b, c),
    ensures
        position_lt(a, c),
{
    if column_lt(a.0, b.0) && column_lt(b.0, c.0) {
        lemma_column_lt_transitive(a.0, b.0, c.0);
    }
}

/// Two distinct positions are ordered one way or the other.
pub proof fn lemma_position_lt_total(a: PositionView, b: PositionView)
    ensures
        a == b || position_lt(a, b) || position_lt(b, a),
{
    lemma_seq_lt_total(a.0, b.0);
}

/// Inserting `x` into a strictly ascending sequence at the place where the
/// elements before it are smaller and those after it larger keeps the
/// sequence strictly ascending and adds exactly `x` to its elements.
proof fn lemma_sorted_insert<T>(s: Seq<T>, i: int, x: T, lt: spec_fn(T, T) -> bool)
    requires
        0 <= i <= s.len(),
        forall|a: int, b: int| 0 <= a < b < s.len() ==> lt(s[a], s[b]),
        forall|j: int| 0 <= j < i ==> lt(s[j], x),
        forall|j: int| i <= j < s.len() ==> lt(x, s[j]),
    ensures
        forall|a: int, b: int|
            0 <= a < b < s.len() + 1 ==> lt(#[trigger] s.insert(i, x)[a], #[trigger] s.insert(i, x)[b]),
        s.insert(i, x).to_set() == s.to_set().insert(x),
{
    let t = s.insert(i, x);
    s.insert_ensures(i, x);
    assert forall|k: int| i < k < t.len() implies t[k] == s[k - 1] by {
        assert(t[(k - 1) + 1] == s[k - 1]);
    }
    assert forall|a: int, b: int| 0 <= a < b < t.len() implies lt(t[a], t[b]) by {
        if b < i {
        } else if b == i {
        } else if a < i {
            assert(t[b] == s[b - 1]);
        } else if a == i {
            assert(t[b] == s[b - 1]);
        } else {
            assert(t[a] == s[a - 1]);
            assert(t[b] == s[b - 1]);
        }
    }
    assert forall|y: T| t.contains(y) <==> (s.contains(y) || y == x) by {
        if t.contains(y) {
            let k = choose|k: int| 0 <= k < t.len() && t[k] == y;
            if k < i {
                assert(s[k] == y);
            } else if k > i {
                assert(s[k - 1] == y);
            }
        }
        if s.contains(y) {
            let k = choose|k: int| 0 <= k < s.len() && s[k] == y;
            if k < i {
                assert(t[k] == y);
            } else {
                assert(t[k + 1] == y);
            }
        }
        if y == x {
            assert(t[i] == y);
        }
    }
    assert(t.to_set() =~= s.to_set().insert(x));
}

/// Positions in strictly ascending order, hence without repeats.
pub open spec fn positions_sorted(s: Seq<PositionView>) -> bool {
    forall|i: int, j: int| 0 <= i < j < s.len() ==> position_lt(s[i], s[j])
}

/// Adds `p` to a strictly ascending list of positions, unless it is there.
fn insert_position(ps: &mut Vec<GridPosition>, p: GridPosition)
    requires
        positions_sorted(positions_view(old(ps)@)),
    ensures
        positions_sorted(positions_view(final(ps)@)),
        positions_view(final(ps)@).to_set() == positions_view(old(ps)@).to_set().insert(p@),
{
    let ghost s = positions_view(ps@);
    let mut i: usize = 0;
    while i < ps.len() && ps[i].less_than(&p)
        invariant
            i <= ps.len(),
            s == positions_view(ps@),
            forall|j: int| 0 <= j < i ==> position_lt(s[j], p@),
        decreases ps.len() - i,
    {
        i += 1;
    }
    if i < ps.len() && ps[i].same_as(&p) {
        assert(s.to_set() =~= s.to_set().insert(p@)) by {
            assert(s[i as int] == p@);
        }
        return;
    }
    proof {
        if i < s.len() {
            lemma_position_lt_total(s[i as int], p@);
        }
        assert forall|j: int| i <= j < s.len() implies position_lt(p@, s[j]) by {
            if j > i {
                lemma_position_lt_transitive(p@, s[i as int], s[j]);
            }
        }
        lemma_sorted_insert(s, i as int, p@, |a: PositionView, b: PositionView| position_lt(a, b));
    }
    ps.insert(i, p);
    assert(positions_view(ps@) =~= s.insert(i as int, p@));
}


/// One street and its positions, as contracts see it.
pub type RoadView = (Seq<char>, Seq<PositionView>);

/// The views of a list of streets with their positions.
pub open spec fn roads_view(s: Seq<(StreetName, Vec<GridPosition>)>) -> Seq<RoadView> {
    s.map_values(|r: (StreetName, Vec<GridPosition>)| (r.0@, positions_view(r.1@)))
}

/// Streets in strictly ascending order of name, each with a nonempty,
/// strictly ascending list of positions.
pub open spec fn roads_wf(r: Seq<RoadView>) -> bool {
    &&& forall|i: int, j: int| 0 <= i < j < r.len() ==> seq_lt(r[i].0, r[j].0)
    &&& forall|i: int| 0 <= i < r.len() ==> #[trigger] r[i].1.len() > 0 && positions_sorted(r[i].1)
}

/// The (street, position) facts that a list of streets holds.
pub open spec fn road_content(r: Seq<RoadView>) -> Set<EntryView> {
    Set::new(
        |x: EntryView| exists|i: int| 0 <= i < r.len() && r[i].0 == x.0 && #[trigger] r[i].1.contains(x.1),
    )
}

/// `r` is the deduplication of `entries`: its streets are in ascending order
/// of name, each with its positions in ascending order and none twice, and it
/// holds exactly the (street, position) facts of the entries.
pub open spec fn is_dedup_of(r: Seq<RoadView>, entries: Seq<EntryView>) -> bool {
    roads_wf(r) && road_content(r) == entries.to_set()
}

/// The street entries grouped by street name: for each street the set of
/// positions it was seen in.
#[derive(Debug, Clone, PartialEq, Eq)]
pub struct DeduplicatedRoads {
    pub roads: Vec<(StreetName, Vec<GridPosition>)>,
}

impl View for DeduplicatedRoads {
    type V = Seq<RoadView>;

    open spec fn view(&self) -> Seq<RoadView> {
        roads_view(self.roads@)
    }
}

/// Records the entry `e` in a list of streets.
fn insert_entry(roads: &mut Vec<(StreetName, Vec<GridPosition>)>, e: &InputStreetValue)
    requires
        roads_wf(roads_view(old(roads)@)),
    ensures
        roads_wf(roads_view(final(roads)@)),
        road_content(roads_view(final(roads)@)) == road_content(roads_view(old(roads)@)).insert(e@),
{
    let ghost r = roads_view(roads@);
    let ghost name = e.street_name@;
    let mut i: usize = 0;
    while i < roads.len() && text_lt(roads[i].0.0.as_str(), e.street_name.0.as_str())
        invariant
            i <= roads.len(),
            r == roads_view(roads@),
            name == e.street_name@,
            forall|j: int| 0 <= j < i ==> seq_lt(r[j].0, name),
        decreases roads.len() - i,
    {
        i += 1;
    }
    if i < roads.len() && roads[i].0.0 == e.street_name.0 {
        let (n, mut ps) = roads.remove(i);
        let ghost old_ps = positions_view(ps@);
        assert(old_ps == r[i as int].1);
        insert_position(&mut ps, e.position.copy());
        let ghost new_ps = positions_view(ps@);
        roads.insert(i, (n, ps));
        let ghost t = roads_view(roads@);
        assert(t =~= r.update(i as int, (name, new_ps)));
        proof {
            assert(new_ps.to_set().contains(e.position@));
            assert(new_ps.contains(e.position@));
            assert(new_ps.len() > 0);
            assert forall|k: int| 0 <= k < t.len() implies t[k].0 == r[k].0 && #[trigger] t[k].1.len() > 0
                && positions_sorted(t[k].1) by {}
            assert forall|a: int, b: int| 0 <= a < b < t.len() implies seq_lt(t[a].0, t[b].0) by {
                assert(t[a].0 == r[a].0);
                assert(t[b].0 == r[b].0);
            }
            assert forall|y: EntryView| road_content(t).contains(y) <==> road_content(r).insert(e@).contains(y) by {
                if road_content(t).contains(y) {
                    let k = choose|k: int| 0 <= k < t.len() && t[k].0 == y.0 && #[trigger] t[k].1.contains(y.1);
                    if k == i {
                        assert(new_ps.to_set().contains(y.1));
                        if y != e@ {
                            assert(old_ps.to_set().contains(y.1));
                            assert(r[k].1.contains(y.1));
                        }
                    } else {
                        assert(r[k].1.contains(y.1));
                    }
                }
                if road_content(r).contains(y) {
                    let k = choose|k: int| 0 <= k < r.len() && r[k].0 == y.0 && #[trigger] r[k].1.contains(y.1);
                    if k == i {
                        assert(old_ps.to_set().contains(y.1));
                        assert(new_ps.to_set().contains(y.1));
                        assert(t[k].1.contains(y.1));
                    } else {
                        assert(t[k].1.contains(y.1));
                    }
                }
                if y == e@ {
                    assert(t[i as int].1.contains(y.1));
                }
            }
            assert(road_content(t) =~= road_content(r).insert(e@));
        }
    } else {
        let mut ps: Vec<GridPosition> = Vec::new();
        ps.push(e.position.copy());
        let ghost new_ps = positions_view(ps@);
        assert(new_ps =~= seq![e.position@]);
        roads.insert(i, (e.street_name.copy(), ps));
        let ghost t = roads_view(roads@);
        assert(t =~= r.insert(i as int, (name, new_ps)));
        proof {
            if i < r.len() {
                lemma_seq_lt_total(r[i as int].0, name);
            }
            assert forall|j: int| i <= j < r.len() implies seq_lt(name, r[j].0) by {
                if j > i {
                    lemma_seq_lt_transitive(name, r[i as int].0, r[j].0);
                }
            }
            lemma_sorted_insert(r, i as int, (name, new_ps), |a: RoadView, b: RoadView| seq_lt(a.0, b.0));
            r.insert_ensures(i as int, (name, new_ps));
            assert forall|k: int| i < k < t.len() implies t[k] == r[k - 1] by {
                assert(t[(k - 1) + 1] == r[k - 1]);
            }
            assert forall|y: EntryView| road_content(t).contains(y) <==> road_content(r).insert(e@).contains(y) by {
                if road_content(t).contains(y) {
                    let k = choose|k: int| 0 <= k < t.len() && t[k].0 == y.0 && #[trigger] t[k].1.contains(y.1);
                    if k < i {
                        assert(r[k].1.contains(y.1));
                    } else if k > i {
                        assert(r[k - 1].1.contains(y.1));
                    } else {
                        let m = choose|m: int| 0 <= m < new_ps.len() && new_ps[m] == y.1;
                        assert(y == e@);
                    }
                }
                if road_content(r).contains(y) {
                    let k = choose|k: int| 0 <= k < r.len() && r[k].0 == y.0 && #[trigger] r[k].1.contains(y.1);
                    if k < i {
                        assert(t[k].1.contains(y.1));
                    } else {
                        assert(t[k + 1].1.contains(y.1));
                    }
                }
                if y == e@ {
                    assert(new_ps[0] == e.position@);
                    assert(t[i as int].1.contains(y.1));
                }
            }
            assert(road_content(t) =~= road_content(r).insert(e@));
            assert forall|k: int| 0 <= k < t.len() implies #[trigger] t[k].1.len() > 0 && positions_sorted(t[k].1) by {
                if k > i {
                    assert(t[k] == r[k - 1]);
                }
            }
        }
    }
}

impl DeduplicatedRoads {
    /// Groups street entries by street name: each street once, in ascending
    /// order of name, with the positions it was seen in in ascending order
    /// and none twice.
    pub fn from_streets(streets: &[InputStreetValue]) -> (r: Self)
        ensures
            is_dedup_of(r@, entries_view(streets@)),
    {
        let mut roads: Vec<(StreetName, Vec<GridPosition>)> = Vec::new();
        let ghost all = entries_view(streets@);
        assert(road_content(roads_view(roads@)) =~= all.take(0).to_set());
        let mut k: usize = 0;
        while k < streets.len()
            invariant
                k <= streets.len(),
                all == entries_view(streets@),
                roads_wf(roads_view(roads@)),
                road_content(roads_view(roads@)) == all.take(k as int).to_set(),
            decreases streets.len() - k,
        {
            insert_entry(&mut roads, &streets[k]);
            proof {
                assert(all.take(k + 1) =~= all.take(k as int).push(all[k as int]));
                all.take(k as int).lemma_push_to_set_commute(all[k as int]);
            }
            k += 1;
        }
        assert(all.take(k as int) =~= all);
        DeduplicatedRoads { roads }
    }
}


/// Two strictly ascending sequences, under an asymmetric order, that hold
/// the same elements are equal.
proof fn lemma_sorted_unique<T>(s1: Seq<T>, s2: Seq<T>, lt: spec_fn(T, T) -> bool)
    requires
        forall|a: T, b: T| #[trigger] lt(a, b) ==> !lt(b, a),
        forall|i: int, j: int| 0 <= i < j < s1.len() ==> lt(s1[i], s1[j]),
        forall|i: int, j: int| 0 <= i < j < s2.len() ==> lt(s2[i], s2[j]),
        s1.to_set() == s2.to_set(),
    ensures
        s1 == s2,
    decreases s1.len(),
{
    if s1.len() == 0 {
        if s2.len() > 0 {
            assert(s2.to_set().contains(s2[0]));
        }
        assert(s1 =~= s2);
    } else {
        assert(s1.to_set().contains(s1[0]));
        assert(s2.contains(s1[0]));
        assert(s2.to_set().contains(s2[0]));
        assert(s1.contains(s2[0]));
        if s1[0] != s2[0] {
            let k = choose|k: int| 0 <= k < s2.len() && s2[k] == s1[0];
            let m = choose|m: int| 0 <= m < s1.len() && s1[m] == s2[0];
            assert(lt(s2[0], s2[k]));
            assert(lt(s1[0], s1[m]));
        }
        let t1 = s1.drop_first();
        let t2 = s2.drop_first();
        assert forall|y: T| t1.contains(y) <==> t2.contains(y) by {
            if t1.contains(y) {
                let k = choose|k: int| 0 <= k < t1.len() && t1[k] == y;
                assert(s1[k + 1] == y);
                assert(lt(s1[0], s1[k + 1]));
                assert(s1.to_set().contains(y));
                let m = choose|m: int| 0 <= m < s2.len() && s2[m] == y;
                assert(m != 0);
                assert(t2[m - 1] == y);
            }
            if t2.contains(y) {
                let k = choose|k: int| 0 <= k < t2.len() && t2[k] == y;
                assert(s2[k + 1] == y);
                assert(lt(s2[0], s2[k + 1]));
                assert(s2.to_set().contains(y));
                let m = choose|m: int| 0 <= m < s1.len() && s1[m] == y;
                assert(m != 0);
                assert(t1[m - 1] == y);
            }
        }
        assert(t1.to_set() =~= t2.to_set());
        assert forall|i: int, j: int| 0 <= i < j < t1.len() implies lt(t1[i], t1[j]) by {
            assert(t1[i] == s1[i + 1]);
            assert(t1[j] == s1[j + 1]);
        }
        assert forall|i: int, j: int| 0 <= i < j < t2.len() implies lt(t2[i], t2[j]) by {
            assert(t2[i] == s2[i + 1]);
            assert(t2[j] == s2[j + 1]);
        }
        lemma_sorted_unique(t1, t2, lt);
        assert(s1 =~= s2) by {
            assert forall|i: int| 0 <= i < s1.len() implies s1[i] == s2[i] by {
                if i > 0 {
                    assert(s1[i] == t1[i - 1]);
                    assert(s2[i] == t2[i - 1]);
                }
            }
        }
    }
}

proof fn lemma_position_lt_asymmetric()
    ensures
        forall|a: PositionView, b: PositionView| #[trigger] position_lt(a, b) ==> !position_lt(b, a),
{
    assert forall|a: PositionView, b: PositionView| #[trigger] position_lt(a, b) implies !position_lt(b, a) by {
        if position_lt(b, a) {
            lemma_position_lt_transitive(a, b, a);
            lemma_position_lt_irreflexive(a);
        }
    }
}

proof fn lemma_name_lt_asymmetric()
    ensures
        forall|a: RoadView, b: RoadView| #[trigger] seq_lt(a.0, b.0) ==> !seq_lt(b.0, a.0),
{
    assert forall|a: RoadView, b: RoadView| #[trigger] seq_lt(a.0, b.0) implies !seq_lt(b.0, a.0) by {
        lemma_seq_lt_asymmetric(a.0, b.0);
    }
}

/// Within well-formed streets, a position belongs to a street exactly when
/// the (street, position) fact is held.
proof fn lemma_road_positions(r: Seq<RoadView>, i: int, p: PositionView)
    requires
        roads_wf(r),
        0 <= i < r.len(),
    ensures
        r[i].1.contains(p) <==> road_content(r).contains((r[i].0, p)),
{
    if road_content(r).contains((r[i].0, p)) {
        let k = choose|k: int| 0 <= k < r.len() && r[k].0 == r[i].0 && #[trigger] r[k].1.contains(p);
        if k < i {
            assert(seq_lt(r[k].0, r[i].0));
            lemma_seq_lt_irreflexive(r[i].0);
        } else if k > i {
            assert(seq_lt(r[i].0, r[k].0));
            lemma_seq_lt_irreflexive(r[i].0);
        }
    }
    if r[i].1.contains(p) {
        let x: EntryView = (r[i].0, p);
        assert(r[i].0 == x.0 && r[i].1.contains(x.1));
        assert(road_content(r).contains(x));
    }
}

/// Well-formed street lists that hold the same facts are identical.
pub proof fn lemma_dedup_unique(r1: Seq<RoadView>, r2: Seq<RoadView>)
    requires
        roads_wf(r1),
        roads_wf(r2),
        road_content(r1) == road_content(r2),
    ensures
        r1 == r2,
{
    lemma_position_lt_asymmetric();
    lemma_name_lt_asymmetric();
    assert forall|x: RoadView| r1.contains(x) ==> r2.contains(x) by {
        if r1.contains(x) {
            let i = choose|i: int| 0 <= i < r1.len() && r1[i] == x;
            lemma_road_positions_match(r1, r2, i);
        }
    }
    assert forall|x: RoadView| r2.contains(x) ==> r1.contains(x) by {
        if r2.contains(x) {
            let i = choose|i: int| 0 <= i < r2.len() && r2[i] == x;
            lemma_road_positions_match(r2, r1, i);
        }
    }
    assert(r1.to_set() =~= r2.to_set());
    lemma_sorted_unique(r1, r2, |a: RoadView, b: RoadView| seq_lt(a.0, b.0));
}

proof fn lemma_road_positions_match(r1: Seq<RoadView>, r2: Seq<RoadView>, i: int)
    requires
        roads_wf(r1),
        roads_wf(r2),
        road_content(r1) == road_content(r2),
        0 <= i < r1.len(),
    ensures
        r2.contains(r1[i]),
{
    lemma_position_lt_asymmetric();
    let name = r1[i].0;
    let p0 = r1[i].1[0];
    lemma_road_positions(r1, i, p0);
    assert(road_content(r2).contains((name, p0)));
    let j = choose|j: int| 0 <= j < r2.len() && r2[j].0 == name && #[trigger] r2[j].1.contains(p0);
    assert forall|p: PositionView| r1[i].1.contains(p) <==> r2[j].1.contains(p) by {
        lemma_road_positions(r1, i, p);
        lemma_road_positions(r2, j, p);
    }
    assert(r1[i].1.to_set() =~= r2[j].1.to_set());
    lemma_sorted_unique(r1[i].1, r2[j].1, |a: PositionView, b: PositionView| position_lt(a, b));
    assert(r2[j] == r1[i]);
}

/// Deduplication does not depend on the order of the entries: entries that
/// are a permutation of each other deduplicate to identical results.
pub proof fn lemma_dedup_order_independent(
    e1: Seq<EntryView>,
    e2: Seq<EntryView>,
    r1: Seq<RoadView>,
    r2: Seq<RoadView>,
)
    requires
        e1.to_multiset() == e2.to_multiset(),
        is_dedup_of(r1, e1),
        is_dedup_of(r2, e2),
    ensures
        r1 == r2,
{
    e1.to_multiset_ensures();
    e2.to_multiset_ensures();
    assert forall|x: EntryView| e1.contains(x) <==> e2.contains(x) by {
        assert(e1.contains(x) <==> e1.to_multiset().count(x) > 0);
        assert(e2.contains(x) <==> e2.to_multiset().count(x) > 0);
    }
    assert(e1.to_set() =~= e2.to_set());
    lemma_dedup_unique(r1, r2);
}


/// Where a street's label lies once it is compactly representable.
pub enum FinalizedGridPositon {
    /// Road is contained within a single cell, i.e. "Valley Road -> A6".
    SingleRect(GridPosition),
    /// Road crosses exactly two cells.
    TwoRect(GridPosition, GridPosition),
}

impl View for FinalizedGridPositon {
    type V = Seq<PositionView>;

    open spec fn view(&self) -> Seq<PositionView> {
        match self {
            FinalizedGridPositon::SingleRect(p) => seq![p@],
            FinalizedGridPositon::TwoRect(a, b) => seq![a@, b@],
        }
    }
}

/// The text of one or two positions: "A9", or "A9-I5" for two.
pub open spec fn finalized_text(s: Seq<PositionView>) -> Seq<char> {
    if s.len() == 2 {
        position_text(s[0]) + seq!['-'] + position_text(s[1])
    } else {
        position_text(s[0])
    }
}

impl FinalizedGridPositon {
    /// The reference as text: "A9" for one cell, "A9-I5" for two.
    pub fn to_string(&self) -> (r: String)
        ensures
            r@ == finalized_text(self@),
    {
        match self {
            FinalizedGridPositon::SingleRect(p) => p.to_string(),
            FinalizedGridPositon::TwoRect(a, b) => {
                let mut s = a.to_string();
                let dash = "-";
                proof {
                    reveal_strlit("-");
                }
                s.append(dash);
                let second = b.to_string();
                s.append(second.as_str());
                s
            },
        }
    }
}

/// A street whose label lies in one or two cells.
pub struct ProcessedRoad {
    pub name: StreetName,
    pub position: FinalizedGridPositon,
}

impl View for ProcessedRoad {
    type V = RoadView;

    open spec fn view(&self) -> RoadView {
        (self.name@, self.position@)
    }
}

/// A street whose label lies in three or more cells, which needs review by hand.
pub struct UnprocessedRoad {
    pub name: StreetName,
    pub positions: Vec<GridPosition>,
}

impl View for UnprocessedRoad {
    type V = RoadView;

    open spec fn view(&self) -> RoadView {
        (self.name@, positions_view(self.positions@))
    }
}

/// The streets that are compactly representable, in ascending order of name.
pub struct ProcessedRoadNames {
    pub processed: Vec<ProcessedRoad>,
}

impl View for ProcessedRoadNames {
    type V = Seq<RoadView>;

    open spec fn view(&self) -> Seq<RoadView> {
        self.processed@.map_values(|r: ProcessedRoad| r@)
    }
}

/// The streets that need review by hand, in ascending order of name.
pub struct UnprocessedRoadNames {
    pub unprocessed: Vec<UnprocessedRoad>,
}

impl View for UnprocessedRoadNames {
    type V = Seq<RoadView>;

    open spec fn view(&self) -> Seq<RoadView> {
        self.unprocessed@.map_values(|r: UnprocessedRoad| r@)
    }
}

/// A street in one or two cells, compactly representable.
pub open spec fn is_compact(r: RoadView) -> bool {
    1 <= r.1.len() <= 2
}

/// A street in three or more cells.
pub open spec fn needs_review(r: RoadView) -> bool {
    r.1.len() >= 3
}

/// The compactly representable streets of `r`, in their order.
pub open spec fn compact_roads(r: Seq<RoadView>) -> Seq<RoadView> {
    r.filter(|x: RoadView| is_compact(x))
}

/// The streets of `r` that need review, in their order.
pub open spec fn review_roads(r: Seq<RoadView>) -> Seq<RoadView> {
    r.filter(|x: RoadView| needs_review(x))
}

fn copy_positions(ps: &Vec<GridPosition>) -> (r: Vec<GridPosition>)
    ensures
        positions_view(r@) == positions_view(ps@),
{
    let mut out: Vec<GridPosition> = Vec::new();
    let mut i: usize = 0;
    while i < ps.len()
        invariant
            i <= ps.len(),
            positions_view(out@) == positions_view(ps@).take(i as int),
        decreases ps.len() - i,
    {
        let p = ps[i].copy();
        let ghost before = out@;
        out.push(p);
        assert(positions_view(out@) =~= positions_view(before).push(p@));
        assert(positions_view(out@) =~= positions_view(ps@).take(i + 1));
        i += 1;
    }
    assert(positions_view(ps@).take(i as int) =~= positions_view(ps@));
    out
}

impl DeduplicatedRoads {
    /// Sorts the streets into those in one cell (a single reference), those
    /// in two (a pair of references, in ascending order) and those in three or
    /// more, which need review by hand; a street without positions is left
    /// out. Both lists keep the order of the streets.
    pub fn process(self) -> (r: (ProcessedRoadNames, UnprocessedRoadNames))
        ensures
            r.0@ == compact_roads(self@),
            r.1@ == review_roads(self@),
    {
        let ghost rv = self@;
        let mut processed: Vec<ProcessedRoad> = Vec::new();
        let mut unprocessed: Vec<UnprocessedRoad> = Vec::new();
        let mut i: usize = 0;
        while i < self.roads.len()
            invariant
                i <= self.roads.len(),
                rv == self@,
                processed@.map_values(|r: ProcessedRoad| r@) == compact_roads(rv.take(i as int)),
                unprocessed@.map_values(|r: UnprocessedRoad| r@) == review_roads(rv.take(i as int)),
            decreases self.roads.len() - i,
        {
            let ghost pv = processed@.map_values(|r: ProcessedRoad| r@);
            let ghost uv = unprocessed@.map_values(|r: UnprocessedRoad| r@);
            let name = &self.roads[i].0;
            let positions = &self.roads[i].1;
            let n = positions.len();
            proof {
                assert(rv.take(i + 1) =~= rv.take(i as int).push(rv[i as int]));
                rv.take(i as int).lemma_filter_push(rv[i as int], |x: RoadView| is_compact(x));
                rv.take(i as int).lemma_filter_push(rv[i as int], |x: RoadView| needs_review(x));
            }
            if n == 1 {
                let road = ProcessedRoad {
                    name: name.copy(),
                    position: FinalizedGridPositon::SingleRect(positions[0].copy()),
                };
                assert(road@.1 =~= rv[i as int].1);
                processed.push(road);
                assert(processed@.map_values(|r: ProcessedRoad| r@) =~= pv.push(road@));
            } else if n == 2 {
                let road = ProcessedRoad {
                    name: name.copy(),
                    position: FinalizedGridPositon::TwoRect(positions[0].copy(), positions[1].copy()),
                };
                assert(road@.1 =~= rv[i as int].1);
                processed.push(road);
                assert(processed@.map_values(|r: ProcessedRoad| r@) =~= pv.push(road@));
            } else if n >= 3 {
                let road = UnprocessedRoad { name: name.copy(), positions: copy_positions(positions) };
                unprocessed.push(road);
                assert(unprocessed@.map_values(|r: UnprocessedRoad| r@) =~= uv.push(road@));
            }
            i += 1;
        }
        assert(rv.take(i as int) =~= rv);
        (ProcessedRoadNames { processed }, UnprocessedRoadNames { unprocessed })
    }
}


/// A street in one or two cells is kept in the compact list and not sent to
/// review; a street in three or more is sent to review and not kept in the
/// compact list. No street with positions is dropped.
pub proof fn lemma_classification(roads: Seq<RoadView>, i: int)
    requires
        0 <= i < roads.len(),
        roads[i].1.len() > 0,
    ensures
        roads[i].1.len() <= 2 ==> compact_roads(roads).contains(roads[i]) && !review_roads(
            roads,
        ).contains(roads[i]),
        roads[i].1.len() >= 3 ==> review_roads(roads).contains(roads[i]) && !compact_roads(
            roads,
        ).contains(roads[i]),
{
    let c = |x: RoadView| is_compact(x);
    let v = |x: RoadView| needs_review(x);
    if roads[i].1.len() <= 2 {
        roads.lemma_filter_contains(c, i);
        if roads.filter(v).contains(roads[i]) {
            let k = choose|k: int| 0 <= k < roads.filter(v).len() && roads.filter(v)[k] == roads[i];
            roads.lemma_filter_pred(v, k);
        }
    } else {
        roads.lemma_filter_contains(v, i);
        if roads.filter(c).contains(roads[i]) {
            let k = choose|k: int| 0 <= k < roads.filter(c).len() && roads.filter(c)[k] == roads[i];
            roads.lemma_filter_pred(c, k);
        }
    }
}

/// Of well-formed streets, a compact street in two cells has its two
/// positions in ascending order.
pub proof fn lemma_pair_sorted(roads: Seq<RoadView>, k: int)
    requires
        roads_wf(roads),
        0 <= k < compact_roads(roads).len(),
        compact_roads(roads)[k].1.len() == 2,
    ensures
        position_lt(compact_roads(roads)[k].1[0], compact_roads(roads)[k].1[1]),
{
    let c = |x: RoadView| is_compact(x);
    let x = roads.filter(c)[k];
    assert(roads.filter(c).contains(x));
    roads.lemma_filter_contains_rev(c, x);
    let j = choose|j: int| 0 <= j < roads.len() && roads[j] == x;
    assert(roads[j].1.len() > 0 && positions_sorted(roads[j].1));
}

/// A finalized reference is a single cell exactly when it covers one
/// position, and a pair exactly when it covers two.
pub proof fn lemma_finalized_shape(f: FinalizedGridPositon)
    ensures
        (f@.len() == 1) == (f is SingleRect),
        (f@.len() == 2) == (f is TwoRect),
{
}

/// `parts` joined with `sep` between each two.
pub open spec fn join(parts: Seq<Seq<char>>, sep: Seq<char>) -> Seq<char>
    decreases parts.len(),
{
    if parts.len() == 0 {
        Seq::empty()
    } else if parts.len() == 1 {
        parts[0]
    } else {
        join(parts.drop_last(), sep) + sep + parts.last()
    }
}

/// The record of a compact street: its name, a tab, and its reference.
pub open spec fn processed_line(r: RoadView) -> Seq<char> {
    r.0 + seq!['\t'] + finalized_text(r.1)
}

/// The record of a street for review: its name and each of its positions,
/// separated by tabs.
pub open spec fn unprocessed_line(r: RoadView) -> Seq<char> {
    r.0 + seq!['\t'] + join(r.1.map_values(|p: PositionView| position_text(p)), seq!['\t'])
}

/// Records joined by carriage return and line feed.
pub open spec fn csv_text(lines: Seq<Seq<char>>) -> Seq<char> {
    join(lines, seq!['\r', '\n'])
}

proof fn lemma_join_step(parts: Seq<Seq<char>>, sep: Seq<char>, k: int)
    requires
        0 <= k < parts.len(),
    ensures
        join(parts.take(k + 1), sep) == if k == 0 {
            parts[0]
        } else {
            join(parts.take(k), sep) + sep + parts[k]
        },
{
    assert(parts.take(k + 1).drop_last() =~= parts.take(k));
    if k == 0 {
        assert(parts.take(1)[0] == parts[0]);
    }
}

impl ProcessedRoad {
    /// The record of this street: its name, a tab, and its reference.
    pub fn to_string(&self) -> (r: String)
        ensures
            r@ == processed_line(self@),
    {
        let mut s = self.name.to_string();
        let tab = "\t";
        proof {
            reveal_strlit("\t");
        }
        s.append(tab);
        let reference = self.position.to_string();
        s.append(reference.as_str());
        s
    }
}

impl UnprocessedRoad {
    /// The record of this street: its name and each of its positions,
    /// separated by tabs.
    pub fn to_string(&self) -> (r: String)
        ensures
            r@ == unprocessed_line(self@),
    {
        let ghost parts = positions_view(self.positions@).map_values(|p: PositionView| position_text(p));
        let tab = "\t";
        proof {
            reveal_strlit("\t");
        }
        let mut joined = String::new();
        let mut k: usize = 0;
        while k < self.positions.len()
            invariant
                k <= self.positions.len(),
                parts == positions_view(self.positions@).map_values(|p: PositionView| position_text(p)),
                tab@ == seq!['\t'],
                joined@ == join(parts.take(k as int), seq!['\t']),
            decreases self.positions.len() - k,
        {
            proof {
                lemma_join_step(parts, seq!['\t'], k as int);
            }
            if k > 0 {
                joined.append(tab);
            }
            let text = self.positions[k].to_string();
            joined.append(text.as_str());
            k += 1;
        }
        assert(parts.take(k as int) =~= parts);
        let mut s = self.name.to_string();
        s.append(tab);
        s.append(joined.as_str());
        s
    }
}

impl ProcessedRoadNames {
    /// One record per street, joined by carriage return and line feed.
    pub fn to_csv(self) -> (r: String)
        ensures
            r@ == csv_text(self@.map_values(|x: RoadView| processed_line(x))),
    {
        let ghost lines = self@.map_values(|x: RoadView| processed_line(x));
        let crlf = "\r\n";
        proof {
            reveal_strlit("\r\n");
        }
        let mut s = String::new();
        let mut k: usize = 0;
        while k < self.processed.len()
            invariant
                k <= self.processed.len(),
                lines == self@.map_values(|x: RoadView| processed_line(x)),
                crlf@ == seq!['\r', '\n'],
                s@ == join(lines.take(k as int), seq!['\r', '\n']),
            decreases self.processed.len() - k,
        {
            proof {
                lemma_join_step(lines, seq!['\r', '\n'], k as int);
            }
            if k > 0 {
                s.append(crlf);
            }
            let line = self.processed[k].to_string();
            s.append(line.as_str());
            k += 1;
        }
        assert(lines.take(k as int) =~= lines);
        s
    }
}

impl UnprocessedRoadNames {
    /// One record per street, joined by carriage return and line feed.
    pub fn to_csv(self) -> (r: String)
        ensures
            r@ == csv_text(self@.map_values(|x: RoadView| unprocessed_line(x))),
    {
        let ghost lines = self@.map_values(|x: RoadView| unprocessed_line(x));
        let crlf = "\r\n";
        proof {
            reveal_strlit("\r\n");
        }
        let mut s = String::new();
        let mut k: usize = 0;
        while k < self.unprocessed.len()
            invariant
                k <= self.unprocessed.len(),
                lines == self@.map_values(|x: RoadView| unprocessed_line(x)),
                crlf@ == seq!['\r', '\n'],
                s@ == join(lines.take(k as int), seq!['\r', '\n']),
            decreases self.unprocessed.len() - k,
        {
            proof {
                lemma_join_step(lines, seq!['\r', '\n'], k as int);
            }
            if k > 0 {
                s.append(crlf);
            }
            let line = self.unprocessed[k].to_string();
            s.append(line.as_str());
            k += 1;
        }
        assert(lines.take(k as int) =~= lines);
        s
    }
}

} // verus!
