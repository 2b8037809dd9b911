use vstd::prelude::*;

use crate::image::{lemma_index_join, lemma_index_split, GrayImage};

verus! {

/// `(x, y)` lies inside `img` and holds a nonzero value.
pub open spec fn fg(img: GrayImage, x: int, y: int) -> bool {
    0 <= x < img.width && 0 <= y < img.height && img.px(x, y) != 0
}

/// `(x, y)` lies in the first or last row or column of `img`.
pub open spec fn on_edge(img: GrayImage, x: int, y: int) -> bool {
    x == 0 || y == 0 || x == img.width - 1 || y == img.height - 1
}

/// The two pixels are equal or 8-neighbours.
pub open spec fn adjacent(a: (int, int), b: (int, int)) -> bool {
    -1 <= a.0 - b.0 <= 1 && -1 <= a.1 - b.1 <= 1
}

/// A chain of foreground pixels, each adjacent to the next, that starts on
/// the image's edge.
pub open spec fn is_edge_path(img: GrayImage, path: Seq<(int, int)>) -> bool {
    &&& path.len() > 0
    &&& on_edge(img, path[0].0, path[0].1)
    &&& forall|i: int| 0 <= i < path.len() ==> fg(img, #[trigger] path[i].0, path[i].1)
    &&& forall|i: int| 0 <= i < path.len() - 1 ==> adjacent(#[trigger] path[i], path[i + 1])
}

/// The 8-connected foreground region of `(x, y)` reaches the image's edge;
/// equivalently, its bounding rectangle touches the edge.
pub open spec fn touches_edge(img: GrayImage, x: int, y: int) -> bool {
    exists|path: Seq<(int, int)>| is_edge_path(img, path) && path.last() == (x, y)
}

/// The value of `(x, y)` once every region touching the edge is erased.
pub open spec fn cleared(img: GrayImage, x: int, y: int) -> u8 {
    if fg(img, x, y) && !touches_edge(img, x, y) {
        img.px(x, y)
    } else {
        0
    }
}

pub open spec fn count_unmarked(s: Seq<bool>) -> nat
    decreases s.len(),
{
    if s.len() == 0 {
        0
    } else {
        count_unmarked(s.drop_last()) + if s.last() {
            0nat
        } else {
            1nat
        }
    }
}

proof fn lemma_count_mark(s: Seq<bool>, i: int)
    requires
        0 <= i < s.len(),
        !s[i],
    ensures
        count_unmarked(s.update(i, true)) + 1 == count_unmarked(s),
    decreases s.len(),
{
    let t = s.update(i, true);
    if i == s.len() - 1 {
        assert(t.drop_last() =~= s.drop_last());
    } else {
        assert(t.drop_last() =~= s.drop_last().update(i, true));
        lemma_count_mark(s.drop_last(), i);
    }
}

/// Every marked pixel is foreground and connected to the edge.
pub open spec fn sound(img: GrayImage, marks: Seq<bool>) -> bool {
    &&& marks.len() == img.width * img.height
    &&& forall|j: int|
        0 <= j < marks.len() && #[trigger] marks[j] ==> fg(img, j % img.width as int, j / img.width as int)
            && touches_edge(img, j % img.width as int, j / img.width as int)
}

/// Every foreground neighbour of pixel `j` is marked.
pub open spec fn closed(img: GrayImage, marks: Seq<bool>, j: int) -> bool {
    forall|x: int, y: int|
        adjacent((j % img.width as int, j / img.width as int), (x, y)) && fg(img, x, y)
            ==> #[trigger] marks[y * img.width + x]
}

pub open spec fn stack_ok(marks: Seq<bool>, stack: Seq<usize>) -> bool {
    forall|k: int| 0 <= k < stack.len() ==> #[trigger] stack[k] < marks.len() && marks[stack[k] as int]
}

/// Marks `(nx, ny)` and pushes it when it is an unmarked foreground pixel.
fn visit(img: &GrayImage, marks: &mut Vec<bool>, stack: &mut Vec<usize>, px: usize, py: usize, nx: i128, ny: i128)
    requires
        img.wf(),
        sound(*img, old(marks)@),
        stack_ok(old(marks)@, old(stack)@),
        px < img.width,
        py < img.height,
        old(marks)@[py * img.width + px],
        adjacent((px as int, py as int), (nx as int, ny as int)),
    ensures
        sound(*img, final(marks)@),
        stack_ok(final(marks)@, final(stack)@),
        fg(*img, nx as int, ny as int) ==> 0 <= ny * img.width + nx < final(marks)@.len()
            && final(marks)@[ny * img.width + nx],
        forall|j: int| 0 <= j < old(marks)@.len() && old(marks)@[j] ==> final(marks)@[j],
        forall|k: int| 0 <= k < old(stack)@.len() ==> final(stack)@[k] == old(stack)@[k],
        final(stack)@.len() >= old(stack)@.len(),
        forall|j: int|
            0 <= j < old(marks)@.len() && final(marks)@[j] && !old(marks)@[j]
                ==> final(stack)@.contains(j as usize),
        forall|v: usize| old(stack)@.contains(v) ==> final(stack)@.contains(v),
        count_unmarked(final(marks)@) + final(stack)@.len() == count_unmarked(old(marks)@) + old(stack)@.len(),
{
    let w = img.width;
    let h = img.height;
    if nx < 0 || ny < 0 || nx >= w as i128 || ny >= h as i128 {
        return;
    }
    let x = nx as usize;
    let y = ny as usize;
    proof {
        lemma_index_join(x as int, y as int, w as int, h as int);
        lemma_index_join(px as int, py as int, w as int, h as int);
    }
    let idx = y * w + x;
    if img.data[idx] == 0 || marks[idx] {
        return;
    }
    proof {
        let pidx = py * w + px;
        let path = choose|path: Seq<(int, int)>|
            is_edge_path(*img, path) && path.last() == (px as int, py as int);
        let np = path.push((x as int, y as int));
        assert(np[np.len() - 2] == path.last());
        assert(is_edge_path(*img, np));
        assert(np.last() == (x as int, y as int));
        lemma_count_mark(marks@, idx as int);
    }
    let ghost s0 = stack@;
    marks.set(idx, true);
    stack.push(idx);
    proof {
        assert(stack@[stack@.len() - 1] == idx);
        assert forall|v: usize| s0.contains(v) implies stack@.contains(v) by {
            let k = choose|k: int| 0 <= k < s0.len() && s0[k] == v;
            assert(stack@[k] == v);
        }
    }
}

/// The offsets of the eight neighbours of a pixel.
pub open spec fn neighbour(k: int) -> (int, int) {
    if k < 3 {
        (k - 1, -1)
    } else if k == 3 {
        (-1, 0)
    } else if k == 4 {
        (1, 0)
    } else {
        (k - 6, 1)
    }
}

proof fn lemma_closed_mono(img: GrayImage, a: Seq<bool>, b: Seq<bool>, j: int)
    requires
        a.len() == b.len(),
        forall|k: int| 0 <= k < a.len() && a[k] ==> b[k],
        img.wf(),
        a.len() == img.width * img.height,
    ensures
        closed(img, a, j) ==> closed(img, b, j),
{
    if closed(img, a, j) {
        assert forall|x: int, y: int|
            adjacent((j % img.width as int, j / img.width as int), (x, y)) && fg(img, x, y)
                implies #[trigger] b[y * img.width + x] by {
            lemma_index_join(x, y, img.width as int, img.height as int);
            assert(a[y * img.width + x]);
        }
    }
}

proof fn lemma_path_marked(img: GrayImage, marks: Seq<bool>, path: Seq<(int, int)>, i: int)
    requires
        img.wf(),
        marks.len() == img.width * img.height,
        forall|j: int| 0 <= j < marks.len() && marks[j] ==> closed(img, marks, j),
        forall|j: int|
            0 <= j < marks.len() && on_edge(img, j % img.width as int, j / img.width as int) && fg(
                img,
                j % img.width as int,
                j / img.width as int,
            ) ==> #[trigger] marks[j],
        is_edge_path(img, path),
        0 <= i < path.len(),
    ensures
        marks[path[i].1 * img.width + path[i].0],
    decreases i,
{
    let w = img.width as int;
    let h = img.height as int;
    assert(fg(img, path[i].0, path[i].1));
    lemma_index_join(path[i].0, path[i].1, w, h);
    if i > 0 {
        lemma_path_marked(img, marks, path, i - 1);
        assert(fg(img, path[i - 1].0, path[i - 1].1));
        lemma_index_join(path[i - 1].0, path[i - 1].1, w, h);
        let j = path[i - 1].1 * w + path[i - 1].0;
        assert(adjacent(path[i - 1], path[i]));
        assert(closed(img, marks, j));
    }
}

/// Erases every 8-connected foreground region that touches the image's
/// edge; all other pixels keep their values.
pub fn clear_border(img: &GrayImage) -> (r: GrayImage)
    requires
        img.wf(),
    ensures
        r.wf(),
        r.width == img.width,
        r.height == img.height,
        forall|x: int, y: int|
            0 <= x < img.width && 0 <= y < img.height ==> r.px(x, y) == cleared(*img, x, y),
{
    let w = img.width;
    let h = img.height;
    let n = w * h;
    let mut marks: Vec<bool> = Vec::new();
    let mut i: usize = 0;
    while i < n
        invariant
            i <= n,
            marks@.len() == i,
            forall|j: int| 0 <= j < i ==> !marks@[j],
        decreases n - i,
    {
        marks.push(false);
        i += 1;
    }
    let mut stack: Vec<usize> = Vec::new();
    i = 0;
    while i < n
        invariant
            img.wf(),
            w == img.width,
            h == img.height,
            n == w * h,
            i <= n,
            sound(*img, marks@),
            stack_ok(marks@, stack@),
            forall|j: int| i <= j < n ==> !marks@[j],
            forall|j: int|
                0 <= j < n && marks@[j] && !stack@.contains(j as usize) ==> closed(*img, marks@, j),
            forall|j: int|
                0 <= j < i && on_edge(*img, j % w as int, j / w as int) && fg(
                    *img,
                    j % w as int,
                    j / w as int,
                ) ==> #[trigger] marks@[j],
        decreases n - i,
    {
        proof {
            lemma_index_split(i as int, w as int, h as int);
            lemma_index_join(i as int % w as int, i as int / w as int, w as int, h as int);
        }
        let x = i % w;
        let y = i / w;
        if (x == 0 || y == 0 || x == w - 1 || y == h - 1) && img.data[i] != 0 {
            proof {
                let path = seq![(x as int, y as int)];
                assert(is_edge_path(*img, path));
                assert(path.last() == (x as int, y as int));
                assert(touches_edge(*img, x as int, y as int));
            }
            let ghost before = marks@;
            let ghost stack0 = stack@;
            marks.set(i, true);
            stack.push(i);
            proof {
                assert forall|j: int|
                    0 <= j < n && marks@[j] && !stack@.contains(j as usize) implies closed(
                    *img,
                    marks@,
                    j,
                ) by {
                    assert(stack@[stack@.len() - 1] == i);
                    if j != i {
                        if stack0.contains(j as usize) {
                            let k = choose|k: int| 0 <= k < stack0.len() && stack0[k] == j as usize;
                            assert(stack@[k] == j as usize);
                        }
                        lemma_closed_mono(*img, before, marks@, j);
                    }
                }
            }
        }
        i += 1;
    }
    while stack.len() > 0
        invariant
            img.wf(),
            w == img.width,
            h == img.height,
            n == w * h,
            sound(*img, marks@),
            stack_ok(marks@, stack@),
            forall|j: int|
                0 <= j < n && marks@[j] && !stack@.contains(j as usize) ==> closed(*img, marks@, j),
            forall|j: int|
                0 <= j < n && on_edge(*img, j % w as int, j / w as int) && fg(
                    *img,
                    j % w as int,
                    j / w as int,
                ) ==> #[trigger] marks@[j],
        decreases count_unmarked(marks@) + stack@.len(),
    {
        let ghost stack0 = stack@;
        let ghost marks0 = marks@;
        let p = stack.pop().unwrap();
        proof {
            assert(stack0[stack0.len() - 1] == p);
            assert(marks0[p as int]);
            lemma_index_split(p as int, w as int, h as int);
            lemma_index_join(p as int % w as int, p as int / w as int, w as int, h as int);
        }
        let px = p % w;
        let py = p / w;
        let cx = px as i128;
        let cy = py as i128;
        let ghost stack1 = stack@;
        let mut k: usize = 0;
        while k < 8
            invariant
                img.wf(),
                w == img.width,
                h == img.height,
                n == w * h,
                px < w,
                py < h,
                p as int == py * w + px,
                cx == px,
                cy == py,
                k <= 8,
                p < n,
                marks0.len() == n,
                forall|j: int|
                    0 <= j < n && on_edge(*img, j % w as int, j / w as int) && fg(
                        *img,
                        j % w as int,
                        j / w as int,
                    ) ==> #[trigger] marks@[j],
                marks0[p as int],
                sound(*img, marks@),
                stack_ok(marks@, stack@),
                forall|j: int| 0 <= j < n && marks0[j] ==> marks@[j],
                forall|j: int|
                    0 <= j < n && marks@[j] && !marks0[j] ==> stack@.contains(j as usize),
                forall|i: int| 0 <= i < stack1.len() ==> stack@[i] == stack1[i],
                stack@.len() >= stack1.len(),
                count_unmarked(marks@) + stack@.len() == count_unmarked(marks0) + stack1.len(),
                forall|kk: int|
                    0 <= kk < k ==> {
                        let d = #[trigger] neighbour(kk);
                        fg(*img, px + d.0, py + d.1) ==> 0 <= (py + d.1) * w + (px + d.0) < n
                            && marks@[(py + d.1) * w + (px + d.0)]
                    },
            decreases 8 - k,
        {
            let (dx, dy): (i128, i128) = if k == 0 {
                (-1, -1)
            } else if k == 1 {
                (0, -1)
            } else if k == 2 {
                (1, -1)
            } else if k == 3 {
                (-1, 0)
            } else if k == 4 {
                (1, 0)
            } else if k == 5 {
                (-1, 1)
            } else if k == 6 {
                (0, 1)
            } else {
                (1, 1)
            };
            proof {
                lemma_index_join(px as int, py as int, w as int, h as int);
            }
            visit(img, &mut marks, &mut stack, px, py, cx + dx, cy + dy);
            k += 1;
        }
        proof {
            assert forall|j: int|
                0 <= j < n && marks@[j] && !stack@.contains(j as usize) implies closed(
                *img,
                marks@,
                j,
            ) by {
                if j == p {
                    assert forall|x: int, y: int|
                        adjacent((j % w as int, j / w as int), (x, y)) && fg(*img, x, y)
                            implies #[trigger] marks@[y * w + x] by {
                        let dx = x - px;
                        let dy = y - py;
                        if dx == 0 && dy == 0 {
                            assert(marks@[p as int]);
                        } else {
                            let kk = if dy == -1 {
                                dx + 1
                            } else if dy == 0 {
                                if dx == -1 {
                                    3
                                } else {
                                    4
                                }
                            } else {
                                dx + 6
                            };
                            assert(neighbour(kk) == (dx, dy));
                        }
                    }
                    assert(closed(*img, marks@, j));
                } else {
                    if stack0.contains(j as usize) {
                        let k = choose|k: int| 0 <= k < stack0.len() && stack0[k] == j as usize;
                        assert(k < stack0.len() - 1);
                        assert(stack1[k] == stack0[k]);
                        assert(stack@[k] == stack1[k]);
                        assert(stack@.contains(j as usize));
                    }
                    assert(!stack0.contains(j as usize));
                    assert(marks0[j]);
                    assert(closed(*img, marks0, j));
                    lemma_closed_mono(*img, marks0, marks@, j);
                }
            }
        }
    }
    let mut data: Vec<u8> = Vec::new();
    i = 0;
    while i < n
        invariant
            img.wf(),
            w == img.width,
            h == img.height,
            n == w * h,
            marks@.len() == n,
            i <= n,
            data@.len() == i,
            forall|j: int|
                0 <= j < i ==> data@[j] == if img.data@[j] != 0 && !marks@[j] {
                    img.data@[j]
                } else {
                    0u8
                },
        decreases n - i,
    {
        let v = img.data[i];
        if v != 0 && !marks[i] {
            data.push(v);
        } else {
            data.push(0);
        }
        i += 1;
    }
    let r = GrayImage { width: w, height: h, data };
    assert forall|x: int, y: int| 0 <= x < w && 0 <= y < h implies r.px(x, y) == cleared(
        *img,
        x,
        y,
    ) by {
        lemma_index_join(x, y, w as int, h as int);
        let j = y * w + x;
        if touches_edge(*img, x, y) {
            let path = choose|path: Seq<(int, int)>|
                is_edge_path(*img, path) && path.last() == (x, y);
            lemma_path_marked(*img, marks@, path, path.len() - 1);
        }
    }
    r
}

/// Clearing the border is idempotent: when `b` is `a` with every region
/// touching the edge erased, clearing `b` changes no pixel, since no
/// foreground pixel of `b` is connected to the edge.
pub proof fn lemma_clear_border_idempotent(a: GrayImage, b: GrayImage)
    requires
        a.wf(),
        b.wf(),
        b.width == a.width,
        b.height == a.height,
        forall|x: int, y: int|
            0 <= x < a.width && 0 <= y < a.height ==> b.px(x, y) == cleared(a, x, y),
    ensures
        forall|x: int, y: int|
            0 <= x < b.width && 0 <= y < b.height ==> cleared(b, x, y) == b.px(x, y),
{
    assert forall|x: int, y: int| 0 <= x < b.width && 0 <= y < b.height implies cleared(b, x, y)
        == b.px(x, y) by {
        if fg(b, x, y) && touches_edge(b, x, y) {
            let path = choose|path: Seq<(int, int)>| is_edge_path(b, path) && path.last() == (x, y);
            let s = path[0];
            assert(fg(b, s.0, s.1));
            assert(b.px(s.0, s.1) == cleared(a, s.0, s.1));
            let single = seq![s];
            assert(is_edge_path(a, single));
            assert(single.last() == s);
            assert(touches_edge(a, s.0, s.1));
        }
    }
}

} // verus!
