//! Sizes, points, insets and rectangles, generic over the number type.
use vstd::prelude::*;

verus! {

/// A width and a height.
#[derive(Debug, Clone, Copy, PartialEq, Eq)]
pub struct Size<T> {
    pub width: T,
    pub height: T,
}

impl<T: Copy> Size<T> {
    /// The size `width` by `height`.
    pub fn wh(width: T, height: T) -> (r: Self)
        ensures
            r.width == width,
            r.height == height,
    {
        Size { width, height }
    }

    /// The size whose width and height are both `value`.
    pub fn uniform(value: T) -> (r: Self)
        ensures
            r.width == value,
            r.height == value,
    {
        Size { width: value, height: value }
    }
}

/// A position.
#[derive(Debug, Clone, Copy, PartialEq)]
pub struct Point<T> {
    pub x: T,
    pub y: T,
}

impl<T: Clone> Point<T> {
    /// The point at `x`, `y`.
    pub fn xy(x: T, y: T) -> (r: Self)
        ensures
            r.x == x,
            r.y == y,
    {
        Point { x, y }
    }
}

/// Distances from the four edges of a box, clockwise from the top.
#[derive(Debug, Clone, Copy, PartialEq)]
pub struct Insets<T> {
    pub top: T,
    pub right: T,
    pub bottom: T,
    pub left: T,
}

impl<T: Copy> Insets<T> {
    /// The insets with the four distances given clockwise from the top.
    pub fn new(top: T, right: T, bottom: T, left: T) -> (r: Self)
        ensures
            r.top == top,
            r.right == right,
            r.bottom == bottom,
            r.left == left,
    {
        Insets { top, right, bottom, left }
    }

    /// The same distance on every edge.
    pub fn uniform(value: T) -> (r: Self)
        ensures
            r.top == value,
            r.right == value,
            r.bottom == value,
            r.left == value,
    {
        Insets { top: value, right: value, bottom: value, left: value }
    }

    /// `x` on the left and right edges, `y` on the top and bottom edges.
    pub fn xy(x: T, y: T) -> (r: Self)
        ensures
            r.top == y,
            r.right == x,
            r.bottom == y,
            r.left == x,
    {
        Insets { top: y, right: x, bottom: y, left: x }
    }
}

/// A box given by its top-left corner and its size.
#[derive(Debug, Clone, Copy, PartialEq)]
pub struct Rect<T> {
    pub location: Point<T>,
    pub size: Size<T>,
}

impl<T: Copy> Rect<T> {
    /// The box at `location` of size `size`.
    pub fn new(location: Point<T>, size: Size<T>) -> (r: Self)
        ensures
            r.location == location,
            r.size == size,
    {
        Rect { location, size }
    }

    /// The box with top-left corner `x`, `y`, of width `width` and height `height`.
    pub fn xywh(x: T, y: T, width: T, height: T) -> (r: Self)
        ensures
            r.location.x == x,
            r.location.y == y,
            r.size.width == width,
            r.size.height == height,
    {
        Rect { location: Point { x, y }, size: Size { width, height } }
    }
}

} // verus!
