//! Students, the display behavior they share, and an enrollment that lists
//! anything with that behavior.
use vstd::prelude::*;

verus! {

/// A student with a name and a declared major.
#[derive(Clone, Debug)]
pub struct Student {
    pub name: String,
    pub major: String,
}

impl Student {
    /// Makes a student from name and major.
    pub fn new(name: String, major: String) -> (s: Student)
        ensures
            s.name == name,
            s.major == major,
    {
        Student { name, major }
    }

    /// Replaces the student's major.
    pub fn set_major(&mut self, new_major: String)
        ensures
            final(self).major == new_major,
            final(self).name == old(self).name,
    {
        self.major = new_major;
    }

    /// Hands out the current major.
    pub fn get_major(&self) -> (m: String)
        ensures
            m@ == self.major@,
    {
        self.major.clone()
    }
}

/// Anything that can describe itself in one display line.
pub trait ShowInfo {
    /// The line the value shows.
    spec fn info(&self) -> Seq<char>;

    /// Produces the display line.
    fn show_info(&self) -> (r: String)
        ensures
            r@ == self.info(),
    ;
}

impl ShowInfo for Student {
    open spec fn info(&self) -> Seq<char> {
        self.name@ + ": "@ + self.major@
    }

    fn show_info(&self) -> (r: String) {
        let mut s = self.name.clone();
        s.append(": ");
        s.append(self.major.as_str());
        s
    }
}

/// A roster of values that share the display behavior.
pub struct Enrollment<T: ShowInfo> {
    pub enrolled_students: Vec<T>,
}

impl<T: ShowInfo> Enrollment<T> {
    /// Makes an enrollment from the given students.
    pub fn new(students: Vec<T>) -> (e: Enrollment<T>)
        ensures
            e.enrolled_students == students,
    {
        Enrollment { enrolled_students: students }
    }

    /// The display line of every enrolled student, in roster order.
    pub fn roster_lines(&self) -> (r: Vec<String>)
        ensures
            r@.len() == self.enrolled_students@.len(),
            forall|i: int|
                0 <= i < r@.len() ==> (#[trigger] r@[i])@ == self.enrolled_students@[i].info(),
    {
        let mut r: Vec<String> = Vec::new();
        let mut i: usize = 0;
        while i < self.enrolled_students.len()
            invariant
                i <= self.enrolled_students@.len(),
                r@.len() == i,
                forall|j: int|
                    0 <= j < i ==> (#[trigger] r@[j])@ == self.enrolled_students@[j].info(),
            decreases self.enrolled_students@.len() - i,
        {
            r.push(self.enrolled_students[i].show_info());
            i += 1;
        }
        r
    }
}

} // verus!
