//! Counting primes.
//!
//! The heart of the crate is a segmented sieve: the primes up to the square
//! root of the bound come from a sieve of Eratosthenes ([`base`]), the range
//! above them is cut into segments ([`plan`]), each segment is sieved on its
//! own ([`segment`]), and what the segments yield is added up, in one pass or
//! by one share for each worker ([`coordinator`], [`aggregate`]). Whatever the
//! number of workers, the count is the same, and that is proved.
//!
//! Beside it stand an early-stop search for the first primes ([`search`]),
//! a sieve whose flags all workers share ([`shared`]), counting by trial
//! division ([`trial`], [`blocks`]), the sieve of Atkin ([`atkin`]) and a wheel
//! sieve ([`wheel`]). The vocabulary of the contracts is in [`primes`] and
//! [`roots`].
//!
//! Nothing here starts a thread. State that workers share is a plain value with
//! methods that take `&mut self`; a caller that runs the workers on threads
//! puts it behind a lock.

pub mod aggregate;
pub mod atkin;
pub mod base;
pub mod blocks;
pub mod coordinator;
pub mod error;
pub mod plan;
pub mod primes;
pub mod roots;
pub mod search;
pub mod segment;
pub mod shared;
pub mod trial;
pub mod wheel;
