//! Outlines as path commands.
use crate::binary32::Binary32;
use vstd::prelude::*;

verus! {

/// A point of a path.
#[derive(Copy, Clone, Debug, PartialEq, Eq, Structural)]
pub struct Vector {
    pub x: Binary32,
    pub y: Binary32,
}

/// A step of a path.
#[derive(Copy, Clone, Debug, PartialEq, Eq, Structural)]
pub enum Command {
    MoveTo(Vector),
    LineTo(Vector),
    QuadTo(Vector, Vector),
    CurveTo(Vector, Vector, Vector),
    Close,
}

/// A box with its sides along the axes.
#[derive(Copy, Clone, Debug, PartialEq, Eq, Structural)]
pub struct BoundingBox {
    pub x_min: Binary32,
    pub y_min: Binary32,
    pub x_max: Binary32,
    pub y_max: Binary32,
}

/// Collects the strokes of a pen.
#[derive(Debug)]
pub struct PathCollector {
    pub commands: Vec<Command>,
}

impl PathCollector {
    /// A collector that has no commands yet.
    pub fn new() -> (c: PathCollector)
        ensures
            c.commands@ == Seq::<Command>::empty(),
    {
        PathCollector { commands: Vec::new() }
    }

    pub fn move_to(&mut self, x: Binary32, y: Binary32)
        ensures
            final(self).commands@ == old(self).commands@.push(Command::MoveTo(Vector { x, y })),
    {
        self.commands.push(Command::MoveTo(Vector { x, y }));
    }

    pub fn line_to(&mut self, x: Binary32, y: Binary32)
        ensures
            final(self).commands@ == old(self).commands@.push(Command::LineTo(Vector { x, y })),
    {
        self.commands.push(Command::LineTo(Vector { x, y }));
    }

    pub fn quad_to(&mut self, cx0: Binary32, cy0: Binary32, x: Binary32, y: Binary32)
        ensures
            final(self).commands@ == old(self).commands@.push(
                Command::QuadTo(Vector { x: cx0, y: cy0 }, Vector { x, y }),
            ),
    {
        self.commands.push(Command::QuadTo(Vector { x: cx0, y: cy0 }, Vector { x, y }));
    }

    pub fn curve_to(
        &mut self,
        cx0: Binary32,
        cy0: Binary32,
        cx1: Binary32,
        cy1: Binary32,
        x: Binary32,
        y: Binary32,
    )
        ensures
            final(self).commands@ == old(self).commands@.push(
                Command::CurveTo(
                    Vector { x: cx0, y: cy0 },
                    Vector { x: cx1, y: cy1 },
                    Vector { x, y },
                ),
            ),
    {
        self.commands.push(
            Command::CurveTo(
                Vector { x: cx0, y: cy0 },
                Vector { x: cx1, y: cy1 },
                Vector { x, y },
            ),
        );
    }

    pub fn close(&mut self)
        ensures
            final(self).commands@ == old(self).commands@.push(Command::Close),
    {
        self.commands.push(Command::Close);
    }

    /// The outline that was drawn, if there is anything in it.
    pub fn outline(self) -> (commands: Option<Vec<Command>>)
        ensures
            match commands {
                Some(commands) => commands@ == self.commands@ && commands@.len() > 0,
                None => self.commands@.len() == 0,
            },
    {
        if self.commands.len() == 0 {
            None
        } else {
            Some(self.commands)
        }
    }
}

} // verus!
