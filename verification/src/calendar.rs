//! The calendar generator: mapping a date's calendar coordinates to a tree
//! path — quarter, week within the quarter, weekday — and computing the
//! node texts that fill a year of date notes below one parent.  Reading the
//! calendar itself is the surrounding application's work; it hands in each
//! day's coordinates and label.

use vstd::prelude::*;

use crate::chars::{chars_to_string, dec_str, int_str, push_i32_decimal, push_u32_decimal};
use crate::errors::StoreError;
use crate::index::NodeIndex;
use crate::node::NodeView;
use crate::path::{display_of, TreePath};

verus! {

/// The tree path of a date below a calendar parent: the quarter, the week
/// number within the quarter, and the weekday numbered from Monday.  Weeks
/// belonging to the previous year's last ISO week count as week zero.
pub open spec fn date_path_of(year: int, iso_year: int, iso_week: int, weekday: int) -> Seq<u32> {
    let kw = if iso_year != year {
        0
    } else {
        iso_week
    };
    let quarter = kw / 13;
    let first = if quarter >= 4 {
        3
    } else {
        quarter
    };
    seq![first as u32, (kw % 13) as u32, weekday as u32]
}

/// The tree path of a date relative to the calendar parent.
pub fn date_to_path(year: i32, iso_year: i32, iso_week: u32, weekday: u32) -> (r: TreePath)
    requires
        iso_week <= 53,
        1 <= weekday <= 7,
    ensures
        r@ == date_path_of(year as int, iso_year as int, iso_week as int, weekday as int),
{
    let kw: u32 = if iso_year != year {
        0
    } else {
        iso_week
    };
    let quarter: u32 = kw / 13;
    let first: u32 = if quarter >= 4 {
        3
    } else {
        quarter
    };
    let mut r = TreePath::new();
    r.push(first);
    r.push(kw % 13);
    r.push(weekday);
    proof {
        assert(r@ =~= date_path_of(year as int, iso_year as int, iso_week as int, weekday as int));
    }
    r
}

/// One day of the year, as the surrounding application reads it from its
/// calendar: the ISO week's year and number, the weekday from Monday, and
/// the formatted label the day's note starts with.
#[derive(Debug)]
pub struct CalendarDay {
    pub iso_year: i32,
    pub iso_week: u32,
    pub weekday: u32,
    pub label: String,
}

/// The mathematical content of a calendar day.
pub struct CalendarDayView {
    pub iso_year: int,
    pub iso_week: int,
    pub weekday: int,
    pub label: Seq<char>,
}

impl View for CalendarDay {
    type V = CalendarDayView;

    open spec fn view(&self) -> CalendarDayView {
        CalendarDayView {
            iso_year: self.iso_year as int,
            iso_week: self.iso_week as int,
            weekday: self.weekday as int,
            label: self.label@,
        }
    }
}

impl DeepView for CalendarDay {
    type V = CalendarDayView;

    open spec fn deep_view(&self) -> CalendarDayView {
        self@
    }
}

/// Every day's fields lie in calendar range.
pub open spec fn days_ok(ds: Seq<CalendarDayView>) -> bool {
    forall|i: int|
        0 <= i < ds.len() ==> 0 <= (#[trigger] ds[i]).iso_week <= 53 && 1 <= ds[i].weekday <= 7
}

/// The four quarter nodes below `parent`: `Q1/{year}` through `Q4/{year}`.
pub open spec fn quarter_entries(parent: Seq<u32>, year: int) -> Seq<(Seq<u32>, Seq<char>)> {
    Seq::new(4, |q: int| (parent.push(q as u32), seq!['Q'] + dec_str(q + 1) + seq!['/'] + int_str(year)))
}

/// The week and day nodes for the days `ds`, in order: a `KW` node whenever
/// the week number changes from `last_kw`, then the day's node.
pub open spec fn day_entries(
    parent: Seq<u32>,
    ds: Seq<CalendarDayView>,
    year: int,
    last_kw: int,
) -> Seq<(Seq<u32>, Seq<char>)>
    decreases ds.len(),
{
    if ds.len() == 0 {
        Seq::<(Seq<u32>, Seq<char>)>::empty()
    } else {
        let d = ds[0];
        let kw = if d.iso_year != year {
            0
        } else {
            d.iso_week
        };
        let dp = date_path_of(year, d.iso_year, d.iso_week, d.weekday);
        let head = if kw != last_kw {
            seq![
                (parent + dp.take(2), seq!['K', 'W', ' '] + dec_str(kw + 1) + seq!['\n']),
                (parent + dp, d.label),
            ]
        } else {
            seq![(parent + dp, d.label)]
        };
        head + day_entries(parent, ds.drop_first(), year, kw)
    }
}

/// All nodes of a fresh calendar below `parent`: the quarters, then the
/// weeks and days.
pub open spec fn calendar_entries(
    parent: Seq<u32>,
    year: int,
    ds: Seq<CalendarDayView>,
) -> Seq<(Seq<u32>, Seq<char>)> {
    quarter_entries(parent, year) + day_entries(parent, ds, year, 500)
}

/// The description of a calendar fill: the texts to store, node by node,
/// and the single commit message covering them all.
#[derive(Debug)]
pub struct CalendarPlan {
    pub nodes: Vec<(TreePath, String)>,
    pub message: String,
}

proof fn lemma_day_entries_concat(
    parent: Seq<u32>,
    a: Seq<CalendarDayView>,
    b: Seq<CalendarDayView>,
    year: int,
    last_kw: int,
)
    ensures
        day_entries(parent, a + b, year, last_kw) == day_entries(parent, a, year, last_kw)
            + day_entries(parent, b, year, end_kw(a, year, last_kw)),
    decreases a.len(),
{
    if a.len() == 0 {
        assert(a + b =~= b);
        assert(day_entries(parent, a, year, last_kw) + day_entries(parent, b, year, last_kw)
            =~= day_entries(parent, b, year, last_kw));
    } else {
        assert((a + b).drop_first() =~= a.drop_first() + b);
        assert((a + b)[0] == a[0]);
        let d = a[0];
        let kw = if d.iso_year != year {
            0
        } else {
            d.iso_week
        };
        lemma_day_entries_concat(parent, a.drop_first(), b, year, kw);
        assert(day_entries(parent, a + b, year, last_kw) =~= day_entries(parent, a, year, last_kw)
            + day_entries(parent, b, year, end_kw(a, year, last_kw)));
    }
}

proof fn lemma_end_kw_concat(
    a: Seq<CalendarDayView>,
    b: Seq<CalendarDayView>,
    year: int,
    last_kw: int,
)
    ensures
        end_kw(a + b, year, last_kw) == end_kw(b, year, end_kw(a, year, last_kw)),
    decreases a.len(),
{
    if a.len() == 0 {
        assert(a + b =~= b);
    } else {
        assert((a + b).drop_first() =~= a.drop_first() + b);
        assert((a + b)[0] == a[0]);
        let d = a[0];
        let kw = if d.iso_year != year {
            0
        } else {
            d.iso_week
        };
        lemma_end_kw_concat(a.drop_first(), b, year, kw);
    }
}

/// The week number in effect after processing the days `a`.
pub open spec fn end_kw(a: Seq<CalendarDayView>, year: int, last_kw: int) -> int
    decreases a.len(),
{
    if a.len() == 0 {
        last_kw
    } else {
        let d = a[0];
        let kw = if d.iso_year != year {
            0
        } else {
            d.iso_week
        };
        end_kw(a.drop_first(), year, kw)
    }
}

impl NodeIndex {
    /// Validates filling a fresh calendar below `parent` and computes its
    /// nodes: fails with `Conflict` when `parent` already has children;
    /// else yields the quarter, week, and day texts in creation order, and
    /// the one commit message.
    pub fn plan_create_calendar(&self, parent: &TreePath, year: i32, days: &Vec<CalendarDay>) -> (r:
        Result<CalendarPlan, StoreError>)
        requires
            self.wf(),
            days_ok(days.deep_view()),
        ensures
            match r {
                Ok(plan) => {
                    &&& self@.filter(|n: NodeView| crate::index::is_child_of(n, parent@)).len()
                        == 0
                    &&& plan.nodes@.len() == calendar_entries(
                        parent@,
                        year as int,
                        days.deep_view(),
                    ).len()
                    &&& forall|i: int|
                        0 <= i < plan.nodes@.len() ==> ((#[trigger] plan.nodes@[i]).0@,
                        plan.nodes@[i].1@) == calendar_entries(parent@, year as int, days.deep_view())[i]
                    &&& plan.message@ == "Added date notes below "@ + display_of(parent@)
                },
                Err(e) => {
                    &&& e == StoreError::Conflict
                    &&& self@.filter(|n: NodeView| crate::index::is_child_of(n, parent@)).len()
                        > 0
                },
            },
    {
        let children = self.children_for(parent);
        if children.len() > 0 {
            proof {
                assert(children.deep_view().len() > 0);
            }
            return Err(StoreError::Conflict);
        }
        proof {
            assert(children.deep_view().len() == 0);
        }
        let ghost dv = days.deep_view();
        let ghost full = calendar_entries(parent@, year as int, dv);
        let mut nodes: Vec<(TreePath, String)> = Vec::new();
        // the four quarter nodes
        let mut q: u32 = 0;
        while q < 4
            invariant
                q <= 4,
                nodes@.len() == q,
                forall|i: int|
                    0 <= i < q ==> ((#[trigger] nodes@[i]).0@, nodes@[i].1@) == quarter_entries(
                        parent@,
                        year as int,
                    )[i],
            decreases 4 - q,
        {
            let path = parent.append(q);
            let mut text: Vec<char> = Vec::new();
            text.push('Q');
            push_u32_decimal(&mut text, q + 1);
            text.push('/');
            push_i32_decimal(&mut text, year);
            proof {
                assert(text@ =~= seq!['Q'] + dec_str(q as int + 1) + seq!['/'] + int_str(
                    year as int,
                ));
            }
            let ghost n0 = nodes@;
            nodes.push((path, chars_to_string(&text)));
            proof {
                assert forall|i: int|
                    0 <= i < q + 1 implies ((#[trigger] nodes@[i]).0@, nodes@[i].1@)
                    == quarter_entries(parent@, year as int)[i] by {
                    if i < q {
                        assert(nodes@[i] == n0[i]);
                    }
                }
            }
            q = q + 1;
        }
        // the week and day nodes
        let mut last_kw: u32 = 500;
        let mut d: usize = 0;
        proof {
            assert(dv.skip(0) =~= dv);
            assert(quarter_entries(parent@, year as int).len() == 4);
        }
        while d < days.len()
            invariant
                d <= dv.len(),
                dv == days.deep_view(),
                days_ok(dv),
                full == calendar_entries(parent@, year as int, dv),
                nodes@.len() >= 4,
                forall|i: int|
                    0 <= i < nodes@.len() && i < 4 ==> ((#[trigger] nodes@[i]).0@, nodes@[i].1@)
                        == quarter_entries(parent@, year as int)[i],
                forall|i: int|
                    4 <= i < nodes@.len() ==> ((#[trigger] nodes@[i]).0@, nodes@[i].1@)
                        == day_entries(parent@, dv.take(d as int), year as int, 500)[i - 4],
                nodes@.len() == 4 + day_entries(parent@, dv.take(d as int), year as int, 500).len(),
                last_kw as int == end_kw(dv.take(d as int), year as int, 500),
            decreases dv.len() - d,
        {
            let day = &days[d];
            let ghost dvd = dv[d as int];
            proof {
                assert(dvd == days@[d as int]@);
                assert(dv.take(d + 1 as int) =~= dv.take(d as int) + seq![dvd]);
                lemma_day_entries_concat(
                    parent@,
                    dv.take(d as int),
                    seq![dvd],
                    year as int,
                    500,
                );
                assert(seq![dvd][0] == dvd);
                assert(seq![dvd].drop_first() =~= Seq::<CalendarDayView>::empty());
            }
            let kw: u32 = if day.iso_year != year {
                0
            } else {
                day.iso_week
            };
            let dp = date_to_path(year, day.iso_year, day.iso_week, day.weekday);
            let ghost n0 = nodes@;
            if kw != last_kw {
                let mut wp = parent.duplicate();
                let comps = dp.iter();
                wp.push(comps[0]);
                wp.push(comps[1]);
                proof {
                    assert(wp@ =~= parent@ + dp@.take(2));
                }
                let mut text: Vec<char> = Vec::new();
                text.push('K');
                text.push('W');
                text.push(' ');
                push_u32_decimal(&mut text, kw + 1);
                text.push('\n');
                proof {
                    assert(text@ =~= seq!['K', 'W', ' '] + dec_str(kw as int + 1) + seq!['\n']);
                }
                nodes.push((wp, chars_to_string(&text)));
            }
            let fullp = parent.concat(&dp);
            nodes.push((fullp, day.label.clone()));
            proof {
                let step = day_entries(parent@, seq![dvd], year as int, 500int + 0 - 500 + end_kw(
                    dv.take(d as int),
                    year as int,
                    500,
                ));
                let prior = day_entries(parent@, dv.take(d as int), year as int, 500);
                let stepk = day_entries(
                    parent@,
                    seq![dvd],
                    year as int,
                    end_kw(dv.take(d as int), year as int, 500),
                );
                assert(day_entries(parent@, Seq::<CalendarDayView>::empty(), year as int, kw as int)
                    =~= Seq::<(Seq<u32>, Seq<char>)>::empty());
                assert(day_entries(parent@, dv.take(d + 1 as int), year as int, 500) =~= prior
                    + stepk);
                assert forall|i: int|
                    4 <= i < nodes@.len() implies ((#[trigger] nodes@[i]).0@, nodes@[i].1@)
                    == day_entries(parent@, dv.take(d + 1 as int), year as int, 500)[i - 4] by {
                    if i < n0.len() {
                        assert(nodes@[i] == n0[i]);
                    }
                }
                lemma_end_kw_concat(dv.take(d as int), seq![dvd], year as int, 500);
                assert(end_kw(Seq::<CalendarDayView>::empty(), year as int, kw as int)
                    == kw as int);
                assert(end_kw(dv.take(d + 1 as int), year as int, 500) == kw as int);
            }
            last_kw = kw;
            d = d + 1;
        }
        proof {
            assert(dv.take(dv.len() as int) =~= dv);
        }
        let shown = parent.display();
        let message = crate::mutate::concat3("Added date notes below ", shown.as_str(), "");
        proof {
            reveal_strlit("");
            assert(""@ =~= Seq::<char>::empty());
            assert("Added date notes below "@ + shown@ + ""@ =~= "Added date notes below "@
                + shown@);
            assert forall|i: int|
                0 <= i < nodes@.len() implies ((#[trigger] nodes@[i]).0@, nodes@[i].1@)
                == full[i] by {
                if i < 4 {
                    assert(full[i] == quarter_entries(parent@, year as int)[i]);
                } else {
                    assert(full[i] == day_entries(parent@, dv, year as int, 500)[i - 4]);
                }
            }
            assert(nodes@.len() == full.len());
        }
        Ok(CalendarPlan { nodes, message })
    }
}

} // verus!
