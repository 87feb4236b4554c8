//! Two- and three-component vectors over signed integer scalars.
use vstd::prelude::*;

verus! {

/// A signed integer type that vectors can hold, with its mathematical value
/// and the range of values it can represent.
pub trait Scalar: Copy + Sized {
    /// The mathematical value.
    spec fn val(self) -> int;

    /// Whether `v` is representable.
    spec fn fits(v: int) -> bool;

    /// The scalar whose value is `v`, for a representable `v`.
    spec fn from_val(v: int) -> Self;

    /// Every scalar's value is representable.
    proof fn lemma_val_fits(self)
        ensures
            Self::fits(self.val()),
    ;

    /// `from_val` inverts `val`.
    proof fn lemma_from_val(v: int)
        requires
            Self::fits(v),
        ensures
            Self::from_val(v).val() == v,
    ;

    /// Scalars with equal values are equal.
    proof fn lemma_val_injective(self, other: Self)
        requires
            self.val() == other.val(),
        ensures
            self == other,
    ;

    /// Zero and one are representable.
    proof fn lemma_small_fit()
        ensures
            Self::fits(0),
            Self::fits(1),
    ;

    /// The scalar zero.
    fn zero() -> (r: Self)
        ensures
            r.val() == 0,
    ;

    /// The scalar one.
    fn one() -> (r: Self)
        ensures
            r.val() == 1,
    ;

    /// The sum, when representable.
    fn plus(self, other: Self) -> (r: Self)
        requires
            Self::fits(self.val() + other.val()),
        ensures
            r.val() == self.val() + other.val(),
    ;

    /// The difference, when representable.
    fn minus(self, other: Self) -> (r: Self)
        requires
            Self::fits(self.val() - other.val()),
        ensures
            r.val() == self.val() - other.val(),
    ;

    /// The product, when representable.
    fn times(self, other: Self) -> (r: Self)
        requires
            Self::fits(self.val() * other.val()),
        ensures
            r.val() == self.val() * other.val(),
    ;

    /// The negation, when representable.
    fn negated(self) -> (r: Self)
        requires
            Self::fits(-self.val()),
        ensures
            r.val() == -self.val(),
    ;

    /// Whether this scalar is below `other`.
    fn is_less(self, other: Self) -> (r: bool)
        ensures
            r == (self.val() < other.val()),
    ;
}

impl Scalar for i32 {
    open spec fn val(self) -> int {
        self as int
    }

    open spec fn fits(v: int) -> bool {
        i32::MIN <= v <= i32::MAX
    }

    open spec fn from_val(v: int) -> i32 {
        v as i32
    }

    proof fn lemma_val_fits(self) {
    }

    proof fn lemma_from_val(v: int) {
    }

    proof fn lemma_val_injective(self, other: Self) {
    }

    proof fn lemma_small_fit() {
    }

    fn zero() -> (r: i32) {
        0
    }

    fn one() -> (r: i32) {
        1
    }

    fn plus(self, other: i32) -> (r: i32) {
        self + other
    }

    fn minus(self, other: i32) -> (r: i32) {
        self - other
    }

    fn times(self, other: i32) -> (r: i32) {
        self * other
    }

    fn negated(self) -> (r: i32) {
        -self
    }

    fn is_less(self, other: i32) -> (r: bool) {
        self < other
    }
}

impl Scalar for i64 {
    open spec fn val(self) -> int {
        self as int
    }

    open spec fn fits(v: int) -> bool {
        i64::MIN <= v <= i64::MAX
    }

    open spec fn from_val(v: int) -> i64 {
        v as i64
    }

    proof fn lemma_val_fits(self) {
    }

    proof fn lemma_from_val(v: int) {
    }

    proof fn lemma_val_injective(self, other: Self) {
    }

    proof fn lemma_small_fit() {
    }

    fn zero() -> (r: i64) {
        0
    }

    fn one() -> (r: i64) {
        1
    }

    fn plus(self, other: i64) -> (r: i64) {
        self + other
    }

    fn minus(self, other: i64) -> (r: i64) {
        self - other
    }

    fn times(self, other: i64) -> (r: i64) {
        self * other
    }

    fn negated(self) -> (r: i64) {
        -self
    }

    fn is_less(self, other: i64) -> (r: bool) {
        self < other
    }
}

/// Absolute value of a mathematical integer.
pub open spec fn abs_int(v: int) -> int {
    if v < 0 {
        -v
    } else {
        v
    }
}

/// The absolute value of a scalar whose negation is representable.
fn scalar_abs<T: Scalar>(v: T) -> (r: T)
    requires
        T::fits(-v.val()),
    ensures
        r.val() == abs_int(v.val()),
{
    let zero = T::zero();
    if v.is_less(zero) {
        v.negated()
    } else {
        v
    }
}

/// A vector with two components.
#[derive(Clone, Copy, Debug, PartialEq)]
pub struct Vector2<T: Scalar> {
    x: T,
    y: T,
}

/// A vector with three components.
#[derive(Clone, Copy, Debug, PartialEq)]
pub struct Vector3<T: Scalar> {
    x: T,
    y: T,
    z: T,
}

impl<T: Scalar> View for Vector2<T> {
    type V = (int, int);

    closed spec fn view(&self) -> (int, int) {
        (self.x.val(), self.y.val())
    }
}

impl<T: Scalar> View for Vector3<T> {
    type V = (int, int, int);

    closed spec fn view(&self) -> (int, int, int) {
        (self.x.val(), self.y.val(), self.z.val())
    }
}

/// The vector with the given representable components.
pub closed spec fn vector2_of<T: Scalar>(x: int, y: int) -> Vector2<T> {
    Vector2 { x: T::from_val(x), y: T::from_val(y) }
}

/// The vector with the given representable components.
pub closed spec fn vector3_of<T: Scalar>(x: int, y: int, z: int) -> Vector3<T> {
    Vector3 { x: T::from_val(x), y: T::from_val(y), z: T::from_val(z) }
}

/// A vector is the vector of its components.
proof fn lemma_vector2_of<T: Scalar>(v: Vector2<T>)
    ensures
        v == vector2_of::<T>(v@.0, v@.1),
{
    v.x.lemma_val_fits();
    v.y.lemma_val_fits();
    T::lemma_from_val(v@.0);
    T::lemma_from_val(v@.1);
    v.x.lemma_val_injective(T::from_val(v@.0));
    v.y.lemma_val_injective(T::from_val(v@.1));
}

/// A vector is the vector of its components.
proof fn lemma_vector3_of<T: Scalar>(v: Vector3<T>)
    ensures
        v == vector3_of::<T>(v@.0, v@.1, v@.2),
{
    v.x.lemma_val_fits();
    v.y.lemma_val_fits();
    v.z.lemma_val_fits();
    T::lemma_from_val(v@.0);
    T::lemma_from_val(v@.1);
    T::lemma_from_val(v@.2);
    v.x.lemma_val_injective(T::from_val(v@.0));
    v.y.lemma_val_injective(T::from_val(v@.1));
    v.z.lemma_val_injective(T::from_val(v@.2));
}

/// Dot product of two plane vectors.
pub open spec fn dot2(a: (int, int), b: (int, int)) -> int {
    a.0 * b.0 + a.1 * b.1
}

/// Cross product of two plane vectors (the `z` component of the 3D one).
pub open spec fn cross2(a: (int, int), b: (int, int)) -> int {
    a.0 * b.1 - a.1 * b.0
}

/// Dot product of two space vectors.
pub open spec fn dot3(a: (int, int, int), b: (int, int, int)) -> int {
    a.0 * b.0 + a.1 * b.1 + a.2 * b.2
}

/// Cross product of two space vectors.
pub open spec fn cross3(a: (int, int, int), b: (int, int, int)) -> (int, int, int) {
    (a.1 * b.2 - a.2 * b.1, a.2 * b.0 - a.0 * b.2, a.0 * b.1 - a.1 * b.0)
}

/// Every intermediate value of the plane dot product is representable.
pub open spec fn dot2_fits<T: Scalar>(a: (int, int), b: (int, int)) -> bool {
    &&& T::fits(a.0 * b.0)
    &&& T::fits(a.1 * b.1)
    &&& T::fits(a.0 * b.0 + a.1 * b.1)
}

/// Every intermediate value of the plane cross product is representable.
pub open spec fn cross2_fits<T: Scalar>(a: (int, int), b: (int, int)) -> bool {
    &&& T::fits(a.0 * b.1)
    &&& T::fits(a.1 * b.0)
    &&& T::fits(a.0 * b.1 - a.1 * b.0)
}

/// Every intermediate value of the space dot product is representable.
pub open spec fn dot3_fits<T: Scalar>(a: (int, int, int), b: (int, int, int)) -> bool {
    &&& T::fits(a.0 * b.0)
    &&& T::fits(a.1 * b.1)
    &&& T::fits(a.2 * b.2)
    &&& T::fits(a.0 * b.0 + a.1 * b.1)
    &&& T::fits(a.0 * b.0 + a.1 * b.1 + a.2 * b.2)
}

/// Every intermediate value of the space cross product is representable.
pub open spec fn cross3_fits<T: Scalar>(a: (int, int, int), b: (int, int, int)) -> bool {
    &&& T::fits(a.1 * b.2)
    &&& T::fits(a.2 * b.1)
    &&& T::fits(a.2 * b.0)
    &&& T::fits(a.0 * b.2)
    &&& T::fits(a.0 * b.1)
    &&& T::fits(a.1 * b.0)
    &&& T::fits(cross3(a, b).0)
    &&& T::fits(cross3(a, b).1)
    &&& T::fits(cross3(a, b).2)
}

impl<T: Scalar> Vector2<T> {
    /// The vector `(x, y)`.
    pub fn new(x: T, y: T) -> (r: Vector2<T>)
        ensures
            r@ == (x.val(), y.val()),
    {
        Vector2 { x, y }
    }

    /// The `x` component.
    pub fn x(&self) -> (r: T)
        ensures
            r.val() == self@.0,
    {
        self.x
    }

    /// The `y` component.
    pub fn y(&self) -> (r: T)
        ensures
            r.val() == self@.1,
    {
        self.y
    }

    /// The zero vector.
    pub fn zero() -> (r: Vector2<T>)
        ensures
            r@ == (0int, 0int),
    {
        Vector2::new(T::zero(), T::zero())
    }

    /// Dot product with `other`.
    pub fn dot_prod(&self, other: &Vector2<T>) -> (r: T)
        requires
            dot2_fits::<T>(self@, other@),
        ensures
            r.val() == dot2(self@, other@),
    {
        self.x.times(other.x).plus(self.y.times(other.y))
    }

    /// The squared Euclidean norm: the dot product with itself.
    pub fn norm2(&self) -> (r: T)
        requires
            dot2_fits::<T>(self@, self@),
        ensures
            r.val() == dot2(self@, self@),
    {
        self.dot_prod(self)
    }

    /// Cross product with `other`: the signed area of the parallelogram
    /// they span.
    pub fn cross_prod(&self, other: &Vector2<T>) -> (r: T)
        requires
            cross2_fits::<T>(self@, other@),
        ensures
            r.val() == cross2(self@, other@),
    {
        self.x.times(other.y).minus(self.y.times(other.x))
    }

    /// The vector orthogonal to this one, of the same norm, a quarter turn
    /// counterclockwise from it.
    pub fn ortho(&self) -> (r: Vector2<T>)
        requires
            T::fits(-self@.1),
        ensures
            r@ == (-self@.1, self@.0),
    {
        Vector2::new(self.y.negated(), self.x)
    }

    /// The vector of the components' absolute values.
    pub fn abs(&self) -> (r: Vector2<T>)
        requires
            T::fits(-self@.0),
            T::fits(-self@.1),
        ensures
            r@ == (abs_int(self@.0), abs_int(self@.1)),
    {
        Vector2::new(scalar_abs(self.x), scalar_abs(self.y))
    }
}

impl<T: Scalar> Vector3<T> {
    /// The vector `(x, y, z)`.
    pub fn new(x: T, y: T, z: T) -> (r: Vector3<T>)
        ensures
            r@ == (x.val(), y.val(), z.val()),
    {
        Vector3 { x, y, z }
    }

    /// The `x` component.
    pub fn x(&self) -> (r: T)
        ensures
            r.val() == self@.0,
    {
        self.x
    }

    /// The `y` component.
    pub fn y(&self) -> (r: T)
        ensures
            r.val() == self@.1,
    {
        self.y
    }

    /// The `z` component.
    pub fn z(&self) -> (r: T)
        ensures
            r.val() == self@.2,
    {
        self.z
    }

    /// The zero vector.
    pub fn zero() -> (r: Vector3<T>)
        ensures
            r@ == (0int, 0int, 0int),
    {
        Vector3::new(T::zero(), T::zero(), T::zero())
    }

    /// Dot product with `other`.
    pub fn dot_prod(&self, other: &Vector3<T>) -> (r: T)
        requires
            dot3_fits::<T>(self@, other@),
        ensures
            r.val() == dot3(self@, other@),
    {
        self.x.times(other.x).plus(self.y.times(other.y)).plus(self.z.times(other.z))
    }

    /// The squared Euclidean norm: the dot product with itself.
    pub fn norm2(&self) -> (r: T)
        requires
            dot3_fits::<T>(self@, self@),
        ensures
            r.val() == dot3(self@, self@),
    {
        self.dot_prod(self)
    }

    /// Cross product with `other`.
    pub fn cross_prod(&self, other: &Vector3<T>) -> (r: Vector3<T>)
        requires
            cross3_fits::<T>(self@, other@),
        ensures
            r@ == cross3(self@, other@),
    {
        Vector3::new(
            self.y.times(other.z).minus(self.z.times(other.y)),
            self.z.times(other.x).minus(self.x.times(other.z)),
            self.x.times(other.y).minus(self.y.times(other.x)),
        )
    }

    /// The vector of the components' absolute values.
    pub fn abs(&self) -> (r: Vector3<T>)
        requires
            T::fits(-self@.0),
            T::fits(-self@.1),
            T::fits(-self@.2),
        ensures
            r@ == (abs_int(self@.0), abs_int(self@.1), abs_int(self@.2)),
    {
        Vector3::new(scalar_abs(self.x), scalar_abs(self.y), scalar_abs(self.z))
    }

    /// The index (0 for `x`, 1 for `y`, 2 for `z`) of a component of largest
    /// absolute value; of several, the last.
    pub fn largest_abs_component(&self) -> (r: i32)
        requires
            T::fits(-self@.0),
            T::fits(-self@.1),
            T::fits(-self@.2),
        ensures
            0 <= r < 3,
            ({
                let a = (abs_int(self@.0), abs_int(self@.1), abs_int(self@.2));
                let m = if r == 0 {
                    a.0
                } else if r == 1 {
                    a.1
                } else {
                    a.2
                };
                &&& a.0 <= m && a.1 <= m && a.2 <= m
                &&& r < 1 ==> a.1 < m
                &&& r < 2 ==> a.2 < m
            }),
    {
        let temp = self.abs();
        if temp.y.is_less(temp.x) {
            if temp.z.is_less(temp.x) {
                0
            } else {
                2
            }
        } else {
            if temp.z.is_less(temp.y) {
                1
            } else {
                2
            }
        }
    }
}

impl<T: Scalar> std::ops::Add for Vector2<T> {
    type Output = Vector2<T>;

    fn add(self, rhs: Vector2<T>) -> (r: Vector2<T>)
        ensures
            r@ == (self@.0 + rhs@.0, self@.1 + rhs@.1),
    {
        let r = Vector2::new(self.x.plus(rhs.x), self.y.plus(rhs.y));
        proof {
            lemma_vector2_of(r);
        }
        r
    }
}

impl<T: Scalar> vstd::std_specs::ops::AddSpecImpl for Vector2<T> {
    open spec fn obeys_add_spec() -> bool {
        true
    }

    open spec fn add_req(self, rhs: Vector2<T>) -> bool {
        &&& T::fits(self@.0 + rhs@.0)
        &&& T::fits(self@.1 + rhs@.1)
    }

    open spec fn add_spec(self, rhs: Vector2<T>) -> Vector2<T> {
        vector2_of(self@.0 + rhs@.0, self@.1 + rhs@.1)
    }
}

impl<T: Scalar> std::ops::Sub for Vector2<T> {
    type Output = Vector2<T>;

    fn sub(self, rhs: Vector2<T>) -> (r: Vector2<T>)
        ensures
            r@ == (self@.0 - rhs@.0, self@.1 - rhs@.1),
    {
        let r = Vector2::new(self.x.minus(rhs.x), self.y.minus(rhs.y));
        proof {
            lemma_vector2_of(r);
        }
        r
    }
}

impl<T: Scalar> vstd::std_specs::ops::SubSpecImpl for Vector2<T> {
    open spec fn obeys_sub_spec() -> bool {
        true
    }

    open spec fn sub_req(self, rhs: Vector2<T>) -> bool {
        &&& T::fits(self@.0 - rhs@.0)
        &&& T::fits(self@.1 - rhs@.1)
    }

    open spec fn sub_spec(self, rhs: Vector2<T>) -> Vector2<T> {
        vector2_of(self@.0 - rhs@.0, self@.1 - rhs@.1)
    }
}

impl<T: Scalar> std::ops::Mul<T> for Vector2<T> {
    type Output = Vector2<T>;

    fn mul(self, scalar: T) -> (r: Vector2<T>)
        ensures
            r@ == (self@.0 * scalar.val(), self@.1 * scalar.val()),
    {
        let r = Vector2::new(self.x.times(scalar), self.y.times(scalar));
        proof {
            lemma_vector2_of(r);
        }
        r
    }
}

impl<T: Scalar> vstd::std_specs::ops::MulSpecImpl<T> for Vector2<T> {
    open spec fn obeys_mul_spec() -> bool {
        true
    }

    open spec fn mul_req(self, scalar: T) -> bool {
        &&& T::fits(self@.0 * scalar.val())
        &&& T::fits(self@.1 * scalar.val())
    }

    open spec fn mul_spec(self, scalar: T) -> Vector2<T> {
        vector2_of(self@.0 * scalar.val(), self@.1 * scalar.val())
    }
}

impl<T: Scalar> std::ops::Add for Vector3<T> {
    type Output = Vector3<T>;

    fn add(self, rhs: Vector3<T>) -> (r: Vector3<T>)
        ensures
            r@ == (self@.0 + rhs@.0, self@.1 + rhs@.1, self@.2 + rhs@.2),
    {
        let r = Vector3::new(self.x.plus(rhs.x), self.y.plus(rhs.y), self.z.plus(rhs.z));
        proof {
            lemma_vector3_of(r);
        }
        r
    }
}

impl<T: Scalar> vstd::std_specs::ops::AddSpecImpl for Vector3<T> {
    open spec fn obeys_add_spec() -> bool {
        true
    }

    open spec fn add_req(self, rhs: Vector3<T>) -> bool {
        &&& T::fits(self@.0 + rhs@.0)
        &&& T::fits(self@.1 + rhs@.1)
        &&& T::fits(self@.2 + rhs@.2)
    }

    open spec fn add_spec(self, rhs: Vector3<T>) -> Vector3<T> {
        vector3_of(self@.0 + rhs@.0, self@.1 + rhs@.1, self@.2 + rhs@.2)
    }
}

impl<T: Scalar> std::ops::Sub for Vector3<T> {
    type Output = Vector3<T>;

    fn sub(self, rhs: Vector3<T>) -> (r: Vector3<T>)
        ensures
            r@ == (self@.0 - rhs@.0, self@.1 - rhs@.1, self@.2 - rhs@.2),
    {
        let r = Vector3::new(self.x.minus(rhs.x), self.y.minus(rhs.y), self.z.minus(rhs.z));
        proof {
            lemma_vector3_of(r);
        }
        r
    }
}

impl<T: Scalar> vstd::std_specs::ops::SubSpecImpl for Vector3<T> {
    open spec fn obeys_sub_spec() -> bool {
        true
    }

    open spec fn sub_req(self, rhs: Vector3<T>) -> bool {
        &&& T::fits(self@.0 - rhs@.0)
        &&& T::fits(self@.1 - rhs@.1)
        &&& T::fits(self@.2 - rhs@.2)
    }

    open spec fn sub_spec(self, rhs: Vector3<T>) -> Vector3<T> {
        vector3_of(self@.0 - rhs@.0, self@.1 - rhs@.1, self@.2 - rhs@.2)
    }
}

impl<T: Scalar> std::ops::Mul<T> for Vector3<T> {
    type Output = Vector3<T>;

    fn mul(self, scalar: T) -> (r: Vector3<T>)
        ensures
            r@ == (self@.0 * scalar.val(), self@.1 * scalar.val(), self@.2 * scalar.val()),
    {
        let r = Vector3::new(self.x.times(scalar), self.y.times(scalar), self.z.times(scalar));
        proof {
            lemma_vector3_of(r);
        }
        r
    }
}

impl<T: Scalar> vstd::std_specs::ops::MulSpecImpl<T> for Vector3<T> {
    open spec fn obeys_mul_spec() -> bool {
        true
    }

    open spec fn mul_req(self, scalar: T) -> bool {
        &&& T::fits(self@.0 * scalar.val())
        &&& T::fits(self@.1 * scalar.val())
        &&& T::fits(self@.2 * scalar.val())
    }

    open spec fn mul_spec(self, scalar: T) -> Vector3<T> {
        vector3_of(self@.0 * scalar.val(), self@.1 * scalar.val(), self@.2 * scalar.val())
    }
}

impl std::ops::Mul<Vector3<i32>> for i32 {
    type Output = Vector3<i32>;

    fn mul(self, rhs: Vector3<i32>) -> (r: Vector3<i32>)
        ensures
            r@ == (self * rhs@.0, self * rhs@.1, self * rhs@.2),
    {
        let r = Vector3::new(self.times(rhs.x), self.times(rhs.y), self.times(rhs.z));
        proof {
            lemma_vector3_of(r);
        }
        r
    }
}

impl vstd::std_specs::ops::MulSpecImpl<Vector3<i32>> for i32 {
    open spec fn obeys_mul_spec() -> bool {
        true
    }

    open spec fn mul_req(self, rhs: Vector3<i32>) -> bool {
        &&& i32::fits(self * rhs@.0)
        &&& i32::fits(self * rhs@.1)
        &&& i32::fits(self * rhs@.2)
    }

    open spec fn mul_spec(self, rhs: Vector3<i32>) -> Vector3<i32> {
        vector3_of(self * rhs@.0, self * rhs@.1, self * rhs@.2)
    }
}

impl std::ops::Mul<Vector3<i64>> for i64 {
    type Output = Vector3<i64>;

    fn mul(self, rhs: Vector3<i64>) -> (r: Vector3<i64>)
        ensures
            r@ == (self * rhs@.0, self * rhs@.1, self * rhs@.2),
    {
        let r = Vector3::new(self.times(rhs.x), self.times(rhs.y), self.times(rhs.z));
        proof {
            lemma_vector3_of(r);
        }
        r
    }
}

impl vstd::std_specs::ops::MulSpecImpl<Vector3<i64>> for i64 {
    open spec fn obeys_mul_spec() -> bool {
        true
    }

    open spec fn mul_req(self, rhs: Vector3<i64>) -> bool {
        &&& i64::fits(self * rhs@.0)
        &&& i64::fits(self * rhs@.1)
        &&& i64::fits(self * rhs@.2)
    }

    open spec fn mul_spec(self, rhs: Vector3<i64>) -> Vector3<i64> {
        vector3_of(self * rhs@.0, self * rhs@.1, self * rhs@.2)
    }
}

impl std::ops::Mul<Vector2<i32>> for i32 {
    type Output = Vector2<i32>;

    fn mul(self, rhs: Vector2<i32>) -> (r: Vector2<i32>)
        ensures
            r@ == (self * rhs@.0, self * rhs@.1),
    {
        let r = Vector2::new(self.times(rhs.x), self.times(rhs.y));
        proof {
            lemma_vector2_of(r);
        }
        r
    }
}

impl vstd::std_specs::ops::MulSpecImpl<Vector2<i32>> for i32 {
    open spec fn obeys_mul_spec() -> bool {
        true
    }

    open spec fn mul_req(self, rhs: Vector2<i32>) -> bool {
        &&& i32::fits(self * rhs@.0)
        &&& i32::fits(self * rhs@.1)
    }

    open spec fn mul_spec(self, rhs: Vector2<i32>) -> Vector2<i32> {
        vector2_of(self * rhs@.0, self * rhs@.1)
    }
}

impl std::ops::Mul<Vector2<i64>> for i64 {
    type Output = Vector2<i64>;

    fn mul(self, rhs: Vector2<i64>) -> (r: Vector2<i64>)
        ensures
            r@ == (self * rhs@.0, self * rhs@.1),
    {
        let r = Vector2::new(self.times(rhs.x), self.times(rhs.y));
        proof {
            lemma_vector2_of(r);
        }
        r
    }
}

impl vstd::std_specs::ops::MulSpecImpl<Vector2<i64>> for i64 {
    open spec fn obeys_mul_spec() -> bool {
        true
    }

    open spec fn mul_req(self, rhs: Vector2<i64>) -> bool {
        &&& i64::fits(self * rhs@.0)
        &&& i64::fits(self * rhs@.1)
    }

    open spec fn mul_spec(self, rhs: Vector2<i64>) -> Vector2<i64> {
        vector2_of(self * rhs@.0, self * rhs@.1)
    }
}

impl<T: Scalar> Default for Vector2<T> {
    fn default() -> (r: Vector2<T>)
        ensures
            r@ == (0int, 0int),
    {
        Vector2::zero()
    }
}

impl<T: Scalar> Default for Vector3<T> {
    fn default() -> (r: Vector3<T>)
        ensures
            r@ == (0int, 0int, 0int),
    {
        Vector3::zero()
    }
}

} // verus!
