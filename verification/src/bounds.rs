use vstd::prelude::*;

use crate::geometry::{dir_name_index, further, is_dir_name, spec_dir_name_index};

verus! {

/// Six scalar extents, one per canonical direction in table order, each
/// recording the furthest coordinate the path has reached along that
/// direction. The whole struct is `Copy` so that the search engine can back
/// it up wholesale before a candidate move and restore it after a failed
/// branch.
#[derive(Clone, Copy, Debug)]
pub struct Bounds {
    values: [i8; 6],
}

impl View for Bounds {
    type V = Seq<i8>;

    closed spec fn view(&self) -> Seq<i8> {
        self.values@
    }
}

impl Default for Bounds {
    /// All six extents start at 0, the origin's coordinate on every axis.
    fn default() -> (r: Self)
        ensures
            r@ == seq![0i8, 0i8, 0i8, 0i8, 0i8, 0i8],
    {
        let r = Bounds { values: [0, 0, 0, 0, 0, 0] };
        proof {
            assert(r@ =~= seq![0i8, 0i8, 0i8, 0i8, 0i8, 0i8]);
        }
        r
    }
}

impl Bounds {
    /// The extent recorded for the named canonical direction.
    pub fn get_by_direction(&self, dir: &str) -> (r: i8)
        requires
            is_dir_name(dir@),
        ensures
            r == self@[spec_dir_name_index(dir@)],
    {
        let idx = dir_name_index(dir);
        self.values[idx]
    }

    /// The extent recorded for the direction at `index` in table order.
    pub fn get_by_index(&self, index: usize) -> (r: i8)
        requires
            index < 6,
        ensures
            r == self@[index as int],
    {
        self.values[index]
    }

    /// Accepts `value` as the extent of the named canonical direction only
    /// if it reaches strictly further along that direction's sign than the
    /// current extent; otherwise the extent is unchanged. The other five
    /// extents are unchanged in either case.
    pub fn update_by_direction(&mut self, dir: &str, value: i8)
        requires
            is_dir_name(dir@),
        ensures
            final(self)@ == old(self)@.update(
                spec_dir_name_index(dir@),
                further(
                    spec_dir_name_index(dir@),
                    old(self)@[spec_dir_name_index(dir@)] as int,
                    value as int,
                ) as i8,
            ),
    {
        let idx = dir_name_index(dir);
        self.update_by_index(idx, value);
    }

    /// Accepts `value` as the extent of the direction at `idx` in table
    /// order only if it reaches strictly further along that direction's
    /// sign than the current extent; otherwise the extent is unchanged. The
    /// other five extents are unchanged in either case.
    pub fn update_by_index(&mut self, idx: usize, value: i8)
        requires
            idx < 6,
        ensures
            final(self)@ == old(self)@.update(
                idx as int,
                further(idx as int, old(self)@[idx as int] as int, value as int) as i8,
            ),
    {
        let cur = self.values[idx];
        let extends = if idx % 2 == 0 {
            value > cur
        } else {
            value < cur
        };
        if extends {
            self.values[idx] = value;
        }
        proof {
            assert(self@ =~= old(self)@.update(
                idx as int,
                further(idx as int, old(self)@[idx as int] as int, value as int) as i8,
            ));
        }
    }
}

} // verus!
